//! What an encoded location says of the path that it was made from.
use vstd::prelude::*;

use crate::encode_error::EncodeError;
use crate::expansion::{
    expanded, law_expansion_walks_a_path, lemma_expansion_of, total_length, ExpansionModel,
};
use crate::graph::{GraphModel, NodeId, SegmentId};
use crate::graph_laws::{law_walks_compose, law_walks_reverse, lemma_walk_start};
use crate::joined::joined;
use crate::line::{
    full_path, leg_point, leg_points, line_of, line_points, stretch_ends, swept, via_in_order,
    CircularInterval, EndQuery, LegAttributes, LineInputModel, LineOracles, LinearInterval, Lrp,
    SweepQueryModel, SweptLegModel,
};

verus! {

/// The stretches of some sweeps.
pub open spec fn chunks(asked: Seq<SweepQueryModel>) -> Seq<Seq<SegmentId>> {
    Seq::new(asked.len(), |k: int| asked[k].chunk)
}

/// Whether a sweep goes on where the one before it ended: at its node, and by the segment
/// by which its last leg arrived there.
pub open spec fn goes_on(
    before: SweepQueryModel,
    legs: Seq<SweptLegModel>,
    next: SweepQueryModel,
) -> bool {
    &&& next.start_node == before.end_node
    &&& legs.len() > 0 && legs.last().segments.len() > 0 ==> next.start_seg
        == legs.last().segments.last()
    &&& legs.len() == 0 || legs.last().segments.len() == 0 ==> next.start_seg == before.start_seg
}

/// Whether a sweep is asked for legs of a stretch that leads from its start to its end, by
/// the limits of the encoding.
pub open spec fn well_asked(g: GraphModel, q: SweepQueryModel, o: LineOracles) -> bool {
    &&& g.walk_end(q.start_node, q.chunk) == Some(q.end_node)
    &&& q.max_leg_cm == 1_500_000
    &&& q.max_turn_microdeg == o.max_turn
    &&& q.zoom == o.zoom
}

/// Whether `asked` are sweeps that follow one another from `start_node` on, with nothing
/// leading into the first, and `answers` are their legs.
pub open spec fn sweep_by_sweep(
    g: GraphModel,
    start_node: NodeId,
    asked: Seq<SweepQueryModel>,
    answers: Seq<Seq<SweptLegModel>>,
    o: LineOracles,
) -> bool {
    &&& answers.len() == asked.len()
    &&& asked.len() > 0 ==> asked[0].start_node == start_node && asked[0].start_seg == SegmentId(
        0xffff_ffff,
    )
    &&& forall|k: int|
        0 <= k < asked.len() ==> well_asked(g, #[trigger] asked[k], o) && (o.sweep)(asked[k])
            == Ok::<Seq<SweptLegModel>, EncodeError>(answers[k])
    &&& forall|k: int|
        0 < k < asked.len() ==> goes_on(asked[k - 1], answers[k - 1], #[trigger] asked[k])
}

/// Whether the sweeps part the path, with what its ends were expanded by, at its waypoints.
pub open spec fn parts_the_path(
    input: LineInputModel,
    start: ExpansionModel,
    end: ExpansionModel,
    asked: Seq<SweepQueryModel>,
) -> bool {
    let prefix = start.segments.len();
    &&& asked.len() == input.via_split_points.len() + 1
    &&& asked.last().end_node == end.node
    &&& joined(chunks(asked)) == start.segments.reverse() + input.path + end.segments
    &&& forall|k: int|
        0 <= k < input.via_split_points.len() ==> joined(chunks(asked).take(k + 1)).len()
            == prefix + #[trigger] input.via_split_points[k]
}

/// Whether a point is the start of a leg: at the place of its node, with the attributes of
/// the leg and no offset but, at the first point, a positive one.
pub open spec fn starts_leg(g: GraphModel, p: Lrp, leg: SweptLegModel, o: LineOracles) -> bool {
    &&& g.nodes.contains_key(leg.start_node.0)
    &&& p.coord.0 == g.nodes[leg.start_node.0].lon
    &&& p.coord.1 == g.nodes[leg.start_node.0].lat
    &&& p.neg_offset is None
    &&& (match (o.attributes)(leg) {
        Some(a) => {
            &&& p.lfrcnp == Some(a.lfrcnp)
            &&& p.frc == a.frc
            &&& p.fow == a.fow
            &&& p.bearing == (CircularInterval { lb: a.bearing_microdeg, ub: a.bearing_microdeg })
            &&& p.dnp == Some(LinearInterval { lb: a.dnp_cm, ub: a.dnp_cm })
        },
        None => false,
    })
}

/// Whether a point is the end of a location: at the place of its node, with the class and
/// form of way of the segment that leads there, and the bearing back along it.
pub open spec fn ends_line(
    g: GraphModel,
    p: Lrp,
    node: NodeId,
    seg: SegmentId,
    o: LineOracles,
) -> bool {
    &&& g.nodes.contains_key(node.0)
    &&& p.coord.0 == g.nodes[node.0].lon
    &&& p.coord.1 == g.nodes[node.0].lat
    &&& g.segments.contains_key(seg.0)
    &&& p.frc == g.segments[seg.0].frc
    &&& p.fow == g.segments[seg.0].fow
    &&& p.bearing.lb == p.bearing.ub
    &&& (o.bearing)(EndQuery { node, seg }) == Some(p.bearing.lb)
    &&& p.lfrcnp is None
    &&& p.dnp is None
    &&& p.pos_offset is None
}

/// Whether an offset of `cm` is stated: as it is where it trims anything, and shorter than
/// the leg that it trims.
pub open spec fn states_offset(r: Option<LinearInterval>, cm: int, leg: Lrp) -> bool {
    match r {
        Some(i) => 0 < cm && i.lb == cm && i.ub == cm && leg.dnp is Some && cm < leg.dnp->Some_0.lb,
        None => cm <= 0,
    }
}

/// Whether `v` are the points of a location with these legs.
pub open spec fn points_of_legs(
    g: GraphModel,
    legs: Seq<SweptLegModel>,
    end_node: NodeId,
    pos_cm: int,
    neg_cm: int,
    o: LineOracles,
    v: Seq<Lrp>,
) -> bool {
    let n = legs.len() as int;
    &&& n > 0
    &&& v.len() == n + 1
    &&& forall|i: int| 0 <= i < n ==> starts_leg(g, #[trigger] v[i], legs[i], o)
    &&& forall|i: int| 0 < i < n ==> (#[trigger] v[i]).pos_offset is None
    &&& ends_line(g, v[n], end_node, legs[n - 1].segments.last(), o)
    &&& states_offset(v[0].pos_offset, pos_cm, v[0])
    &&& states_offset(v[n].neg_offset, neg_cm, v[n - 1])
}

proof fn lemma_leg_starts(g: GraphModel, legs: Seq<SweptLegModel>, n: int, o: LineOracles)
    requires
        0 <= n <= legs.len(),
    ensures
        (match leg_points(g, legs, n, o) {
            Ok(v) => v.len() == n && forall|i: int|
                0 <= i < n ==> starts_leg(g, #[trigger] v[i], legs[i], o) && v[i].pos_offset
                    is None,
            Err(e) => {
                ||| exists|i: int|
                    0 <= i < n && (o.attributes)(#[trigger] legs[i]) is None && e
                        == EncodeError::UnknownSegment(legs[i].segments[0])
                ||| exists|i: int|
                    0 <= i < n && !g.nodes.contains_key((#[trigger] legs[i]).start_node.0) && e
                        == EncodeError::UnknownNode(legs[i].start_node)
            },
        }),
    decreases n,
{
    if n > 0 {
        lemma_leg_starts(g, legs, n - 1, o);
        match leg_points(g, legs, n - 1, o) {
            Ok(v) => {
                match leg_point(g, legs[n - 1], o) {
                    Ok(p) => {
                        assert(starts_leg(g, p, legs[n - 1], o));
                        let w = v.push(p);
                        assert forall|i: int| 0 <= i < n implies starts_leg(
                            g,
                            #[trigger] w[i],
                            legs[i],
                            o,
                        ) && w[i].pos_offset is None by {
                            if i < n - 1 {
                                assert(starts_leg(g, v[i], legs[i], o));
                            }
                        }
                    },
                    Err(_) => {},
                }
            },
            Err(_) => {},
        }
    }
}

/// The points of known legs carry the attributes of those legs, one by one, and the offsets
/// where they trim.
pub proof fn law_points_carry_their_legs(
    g: GraphModel,
    legs: Seq<SweptLegModel>,
    end_node: NodeId,
    pos_cm: int,
    neg_cm: int,
    o: LineOracles,
)
    ensures
        line_points(g, legs, end_node, pos_cm, neg_cm, o) matches Ok(v) ==> points_of_legs(
            g,
            legs,
            end_node,
            pos_cm,
            neg_cm,
            o,
            v,
        ),
{
    if let Ok(v) = line_points(g, legs, end_node, pos_cm, neg_cm, o) {
        let n = legs.len() as int;
        lemma_leg_starts(g, legs, n, o);
        let starts = leg_points(g, legs, n, o)->Ok_0;
        assert(starts[0].dnp is Some && starts[n - 1].dnp is Some) by {
            assert(starts_leg(g, starts[0], legs[0], o));
            assert(starts_leg(g, starts[n - 1], legs[n - 1], o));
        }
        assert forall|i: int| 0 <= i < n implies starts_leg(g, #[trigger] v[i], legs[i], o) && (i
            > 0 ==> v[i].pos_offset is None) by {
            assert(starts_leg(g, starts[i], legs[i], o));
        }
    }
}

/// What is known of the sweep of a location after some of its stretches.
spec fn traced(
    g: GraphModel,
    full: Seq<SegmentId>,
    ends: Seq<int>,
    n: int,
    start_node: NodeId,
    end_node: NodeId,
    o: LineOracles,
    asked: Seq<SweepQueryModel>,
    answers: Seq<Seq<SweptLegModel>>,
) -> bool {
    let s = swept(g, full, ends, n, start_node, end_node, o)->Ok_0;
    &&& asked.len() == n
    &&& sweep_by_sweep(g, start_node, asked, answers, o)
    &&& s.legs == joined(answers)
    &&& 0 <= s.idx <= full.len()
    &&& g.walk_end(start_node, full.take(s.idx)) == Some(s.node)
    &&& joined(chunks(asked)) == full.take(s.idx)
    &&& forall|k: int| 0 <= k < n ==> joined(#[trigger] chunks(asked).take(k + 1)).len() == ends[k]
    &&& n == 0 ==> s.node == start_node && s.seg == SegmentId(0xffff_ffff) && s.idx == 0
    &&& n > 0 ==> s.node == asked.last().end_node && s.idx == ends[n - 1]
    &&& n > 0 && answers.last().len() > 0 && answers.last().last().segments.len() > 0 ==> s.seg
        == answers.last().last().segments.last()
    &&& n > 0 && (answers.last().len() == 0 || answers.last().last().segments.len() == 0) ==> s.seg
        == asked.last().start_seg
}

proof fn lemma_traced(
    g: GraphModel,
    full: Seq<SegmentId>,
    ends: Seq<int>,
    n: int,
    start_node: NodeId,
    end_node: NodeId,
    o: LineOracles,
) -> (t: (Seq<SweepQueryModel>, Seq<Seq<SweptLegModel>>))
    requires
        0 <= n <= ends.len(),
        g.walk_end(start_node, full) == Some(end_node),
        forall|i: int| 0 <= i < ends.len() ==> 0 <= #[trigger] ends[i] <= full.len(),
        forall|i: int, j: int| 0 <= i <= j < ends.len() ==> #[trigger] ends[i] <= #[trigger] ends[j],
    ensures
        (match swept(g, full, ends, n, start_node, end_node, o) {
            Ok(_) => traced(g, full, ends, n, start_node, end_node, o, t.0, t.1),
            Err(e) => exists|q: SweepQueryModel| #[trigger]
                (o.sweep)(q) == Err::<Seq<SweptLegModel>, EncodeError>(e) && well_asked(g, q, o),
        }),
    decreases n,
{
    if n == 0 {
        let t = (Seq::<SweepQueryModel>::empty(), Seq::<Seq<SweptLegModel>>::empty());
        assert(full.take(0) =~= Seq::empty());
        assert(joined(chunks(t.0)) =~= full.take(0));
        assert(joined(t.1) =~= Seq::empty());
        t
    } else {
        let before = lemma_traced(g, full, ends, n - 1, start_node, end_node, o);
        let old_sweep = swept(g, full, ends, n - 1, start_node, end_node, o);
        if old_sweep is Err {
            before
        } else {
            let s = old_sweep->Ok_0;
            let to = ends[n - 1];
            let chunk = full.subrange(s.idx, to);
            if n > 1 {
                assert(ends[n - 2] <= ends[n - 1]);
            }
            assert(full.take(s.idx) + chunk =~= full.take(to));
            law_walks_compose(g, start_node, full.take(s.idx), chunk);
            lemma_walk_start(g, start_node, full, to);
            assert(full.take(full.len() as int) =~= full);
            let node = g.walk_end(start_node, full.take(to))->Some_0;
            let q = SweepQueryModel {
                chunk,
                start_node: s.node,
                start_seg: s.seg,
                end_node: node,
                max_leg_cm: 1_500_000,
                max_turn_microdeg: o.max_turn,
                zoom: o.zoom,
            };
            assert(well_asked(g, q, o));
            match (o.sweep)(q) {
                Err(e) => before,
                Ok(legs) => {
                    let t = (before.0.push(q), before.1.push(legs));
                    lemma_traced_on(
                        g,
                        full,
                        ends,
                        n,
                        start_node,
                        end_node,
                        o,
                        before.0,
                        before.1,
                        q,
                        legs,
                    );
                    t
                },
            }
        }
    }
}

proof fn lemma_traced_on(
    g: GraphModel,
    full: Seq<SegmentId>,
    ends: Seq<int>,
    n: int,
    start_node: NodeId,
    end_node: NodeId,
    o: LineOracles,
    asked: Seq<SweepQueryModel>,
    answers: Seq<Seq<SweptLegModel>>,
    q: SweepQueryModel,
    legs: Seq<SweptLegModel>,
)
    requires
        0 < n <= ends.len(),
        swept(g, full, ends, n - 1, start_node, end_node, o) is Ok,
        swept(g, full, ends, n, start_node, end_node, o) is Ok,
        traced(g, full, ends, n - 1, start_node, end_node, o, asked, answers),
        ({
            let s = swept(g, full, ends, n - 1, start_node, end_node, o)->Ok_0;
            let t = swept(g, full, ends, n, start_node, end_node, o)->Ok_0;
            &&& s.idx <= ends[n - 1] <= full.len()
            &&& q.chunk == full.subrange(s.idx, ends[n - 1])
            &&& q.start_node == s.node
            &&& q.start_seg == s.seg
            &&& g.walk_end(start_node, full.take(ends[n - 1])) == Some(q.end_node)
            &&& well_asked(g, q, o)
            &&& (o.sweep)(q) == Ok::<Seq<SweptLegModel>, EncodeError>(legs)
            &&& t.legs == s.legs + legs
            &&& t.node == q.end_node
            &&& t.idx == ends[n - 1]
            &&& legs.len() > 0 && legs.last().segments.len() > 0 ==> t.seg
                == legs.last().segments.last()
            &&& legs.len() == 0 || legs.last().segments.len() == 0 ==> t.seg == q.start_seg
        }),
    ensures
        traced(g, full, ends, n, start_node, end_node, o, asked.push(q), answers.push(legs)),
{
    let s = swept(g, full, ends, n - 1, start_node, end_node, o)->Ok_0;
    let to = ends[n - 1];
    let a = asked.push(q);
    let b = answers.push(legs);
    assert(b.drop_last() =~= answers);
    assert(chunks(a).drop_last() =~= chunks(asked));
    assert(chunks(a).last() == q.chunk);
    assert(full.take(s.idx) + q.chunk =~= full.take(to));
    assert(joined(chunks(a)) == full.take(to));
    assert forall|k: int| 0 <= k < n implies joined(#[trigger] chunks(a).take(k + 1)).len()
        == ends[k] by {
        if k < n - 1 {
            assert(chunks(a).take(k + 1) =~= chunks(asked).take(k + 1));
        } else {
            assert(chunks(a).take(k + 1) =~= chunks(a));
        }
    }
    assert forall|k: int| 0 <= k < a.len() implies well_asked(g, #[trigger] a[k], o) && (o.sweep)(
        a[k],
    ) == Ok::<Seq<SweptLegModel>, EncodeError>(b[k]) by {
        if k < n - 1 {
            assert(a[k] == asked[k]);
        }
    }
    assert forall|k: int| 0 < k < a.len() implies goes_on(a[k - 1], b[k - 1], #[trigger] a[k]) by {
        if k < n - 1 {
            assert(a[k] == asked[k]);
            assert(goes_on(asked[k - 1], answers[k - 1], asked[k]));
        } else {
            assert(a[k - 1] == asked.last());
            assert(b[k - 1] == answers.last());
        }
    }
}

/// Whether `v` are the points of a location: the path, with what its ends were expanded by,
/// was swept stretch by stretch from waypoint to waypoint, and the points carry the legs of
/// the sweeps and the offsets, longer by what the ends were expanded by.
pub open spec fn encodes(
    g: GraphModel,
    input: LineInputModel,
    start: ExpansionModel,
    end: ExpansionModel,
    o: LineOracles,
    v: Seq<Lrp>,
    asked: Seq<SweepQueryModel>,
    answers: Seq<Seq<SweptLegModel>>,
) -> bool {
    &&& parts_the_path(input, start, end, asked)
    &&& sweep_by_sweep(g, start.node, asked, answers, o)
    &&& points_of_legs(
        g,
        joined(answers),
        end.node,
        input.start_offset_cm + start.distance_cm,
        input.end_offset_cm + end.distance_cm,
        o,
        v,
    )
}

proof fn lemma_full_path_walks(
    g: GraphModel,
    input: LineInputModel,
    end_node: NodeId,
    start: ExpansionModel,
    end: ExpansionModel,
)
    requires
        g.walk_end(input.start_node, input.path) == Some(end_node),
        g.walk_end(input.start_node, start.segments) == Some(start.node),
        g.walk_end(end_node, end.segments) == Some(end.node),
    ensures
        g.walk_end(start.node, start.segments.reverse() + input.path + end.segments) == Some(
            end.node,
        ),
{
    law_walks_reverse(g, input.start_node, start.segments, start.node);
    law_walks_compose(g, start.node, start.segments.reverse(), input.path);
    law_walks_compose(g, start.node, start.segments.reverse() + input.path, end.segments);
}

/// Why a location that is there cannot be encoded: a sweep failed, there is no leg, a
/// segment or a node is not known, or an offset reaches beyond its leg.
pub open spec fn has_cause(
    g: GraphModel,
    input: LineInputModel,
    start: ExpansionModel,
    end: ExpansionModel,
    o: LineOracles,
    e: EncodeError,
) -> bool {
    ||| exists|q: SweepQueryModel| #[trigger]
        (o.sweep)(q) == Err::<Seq<SweptLegModel>, EncodeError>(e) && well_asked(g, q, o)
    ||| exists|asked: Seq<SweepQueryModel>, answers: Seq<Seq<SweptLegModel>>|
        #![trigger sweep_by_sweep(g, start.node, asked, answers, o)]
        {
            &&& parts_the_path(input, start, end, asked)
            &&& sweep_by_sweep(g, start.node, asked, answers, o)
            &&& points_fail(
                g,
                joined(answers),
                end.node,
                input.start_offset_cm + start.distance_cm,
                input.end_offset_cm + end.distance_cm,
                o,
                e,
            )
        }
}

/// Why known legs cannot be made points of.
pub open spec fn points_fail(
    g: GraphModel,
    legs: Seq<SweptLegModel>,
    end_node: NodeId,
    pos_cm: int,
    neg_cm: int,
    o: LineOracles,
    e: EncodeError,
) -> bool {
    let last = legs.last().segments.last();
    match e {
        EncodeError::EmptyPath => legs.len() == 0,
        EncodeError::UnknownNode(n) => !g.nodes.contains_key(n.0),
        EncodeError::UnknownSegment(s) => {
            ||| exists|i: int|
                0 <= i < legs.len() && (o.attributes)(#[trigger] legs[i]) is None && s
                    == legs[i].segments[0]
            ||| s == last && (!g.segments.contains_key(s.0) || (o.bearing)(
                EndQuery { node: end_node, seg: s },
            ) is None)
        },
        EncodeError::OffsetExceedsLeg { offset_cm, leg_cm } => {
            ||| {
                &&& 0 < pos_cm
                &&& pos_cm >= leg_cm
                &&& (o.attributes)(legs[0]) matches Some(a) && a.dnp_cm == leg_cm
                &&& pos_cm <= i128::MAX ==> offset_cm == pos_cm
            }
            ||| {
                &&& 0 < neg_cm
                &&& neg_cm >= leg_cm
                &&& (o.attributes)(legs.last()) matches Some(a) && a.dnp_cm == leg_cm
                &&& neg_cm <= i128::MAX ==> offset_cm == neg_cm
            }
        },
        _ => false,
    }
}

proof fn lemma_points_fail(
    g: GraphModel,
    legs: Seq<SweptLegModel>,
    end_node: NodeId,
    pos_cm: int,
    neg_cm: int,
    o: LineOracles,
)
    ensures
        line_points(g, legs, end_node, pos_cm, neg_cm, o) matches Err(e) ==> points_fail(
            g,
            legs,
            end_node,
            pos_cm,
            neg_cm,
            o,
            e,
        ),
{
    if legs.len() > 0 {
        let n = legs.len() as int;
        lemma_leg_starts(g, legs, n, o);
        match leg_points(g, legs, n, o) {
            Ok(starts) => {
                assert(starts_leg(g, starts[0], legs[0], o));
                assert(starts_leg(g, starts[n - 1], legs[n - 1], o));
            },
            Err(_) => {},
        }
    }
}

/// Every location is encoded as it is, or refused for a reason that holds.
///
/// The path, led on at both ends to where the expansions came, is handed to the sweep
/// stretch by stretch: the stretches make up the whole path, each waypoint ends one, each
/// leads from its start node to its end node, and each goes on from where the legs of the
/// one before it arrived. Each leg gives the point at its start the attributes that the
/// attribute function has for it; the last point is the end of the path. The offsets are
/// those of the location, longer by what its ends were expanded by.
pub proof fn law_lines_encode_their_paths(
    g: GraphModel,
    input: LineInputModel,
    end_node: NodeId,
    start: ExpansionModel,
    end: ExpansionModel,
    o: LineOracles,
)
    requires
        g.wf(),
        via_in_order(input),
        input.path.len() > 0,
        g.walk_end(input.start_node, input.path) == Some(end_node),
        expanded(g, input.start_node, input.path[0], 1_500_000, o.max_turn, o.turn, start),
        expanded(g, end_node, input.path.last(), 1_500_000, o.max_turn, o.turn, end),
    ensures
        (match line_of(g, input, o) {
            Ok(v) => exists|asked: Seq<SweepQueryModel>, answers: Seq<Seq<SweptLegModel>>|
                encodes(g, input, start, end, o, v, asked, answers),
            Err(e) => has_cause(g, input, start, end, o, e),
        }),
{
    law_expansion_walks_a_path(
        g,
        input.start_node,
        input.path[0],
        1_500_000,
        o.max_turn,
        o.turn,
        start,
    );
    law_expansion_walks_a_path(
        g,
        end_node,
        input.path.last(),
        1_500_000,
        o.max_turn,
        o.turn,
        end,
    );
    lemma_expansion_of(
        g,
        input.start_node,
        input.path[0],
        1_500_000,
        o.max_turn,
        o.turn,
        start,
    );
    lemma_expansion_of(g, end_node, input.path.last(), 1_500_000, o.max_turn, o.turn, end);
    lemma_full_path_walks(g, input, end_node, start, end);
    let full = full_path(input.path, start, end);
    let prefix = start.segments.len() as int;
    let ends = stretch_ends(input.via_split_points, prefix, full.len() as int);
    let n = ends.len() as int;
    assert forall|i: int| 0 <= i < ends.len() implies 0 <= #[trigger] ends[i] <= full.len() by {
        if i < input.via_split_points.len() {
            assert(input.via_split_points[i] <= input.path.len());
        }
    }
    assert forall|i: int, j: int| 0 <= i <= j < ends.len() implies #[trigger] ends[i]
        <= #[trigger] ends[j] by {
        if j < input.via_split_points.len() {
            assert(input.via_split_points[i] <= input.via_split_points[j]);
        }
    }
    let t = lemma_traced(g, full, ends, n, start.node, end.node, o);
    match swept(g, full, ends, n, start.node, end.node, o) {
        Err(_) => {},
        Ok(s) => {
            let (asked, answers) = t;
            assert(full.take(full.len() as int) =~= full);
            assert(parts_the_path(input, start, end, asked)) by {
                assert forall|k: int| 0 <= k < input.via_split_points.len() implies joined(
                    chunks(asked).take(k + 1),
                ).len() == prefix + #[trigger] input.via_split_points[k] by {
                    assert(chunks(asked).take(k + 1).len() == k + 1);
                    assert(ends[k] == input.via_split_points[k] + prefix);
                }
            }
            let pos_cm = input.start_offset_cm + start.distance_cm;
            let neg_cm = input.end_offset_cm + end.distance_cm;
            law_points_carry_their_legs(g, s.legs, end.node, pos_cm, neg_cm, o);
            lemma_points_fail(g, s.legs, end.node, pos_cm, neg_cm, o);
            match line_of(g, input, o) {
                Ok(v) => {
                    assert(encodes(g, input, start, end, o, v, asked, answers));
                },
                Err(e) => {},
            }
        },
    }
}

/// Whether the attributes of a leg are those of its segments: the lowest class on the leg
/// is the highest number that any of them has, class and form of way are those of the
/// first, and the distance is the length of all.
pub open spec fn attributes_of(g: GraphModel, leg: SweptLegModel, a: LegAttributes) -> bool {
    &&& leg.segments.len() > 0
    &&& a.frc == g.segments[leg.segments[0].0].frc
    &&& a.fow == g.segments[leg.segments[0].0].fow
    &&& a.dnp_cm == total_length(g, leg.segments)
    &&& exists|i: int|
        0 <= i < leg.segments.len() && g.segments[(#[trigger] leg.segments[i]).0].frc == a.lfrcnp
    &&& forall|i: int|
        0 <= i < leg.segments.len() ==> g.segments[(#[trigger] leg.segments[i]).0].frc <= a.lfrcnp
}

/// Where the attributes are those of the network, the point at the start of a leg has the
/// class and the form of way of the leg's first segment, the lowest class of all its
/// segments, and their length as the distance to the next point.
pub proof fn law_points_describe_their_legs(
    g: GraphModel,
    legs: Seq<SweptLegModel>,
    end_node: NodeId,
    pos_cm: int,
    neg_cm: int,
    o: LineOracles,
    v: Seq<Lrp>,
    i: int,
)
    requires
        forall|leg: SweptLegModel|
            (#[trigger] (o.attributes)(leg)) matches Some(a) ==> attributes_of(g, leg, a),
        line_points(g, legs, end_node, pos_cm, neg_cm, o) == Ok::<Seq<Lrp>, EncodeError>(v),
        0 <= i < legs.len(),
    ensures
        v[i].frc == g.segments[legs[i].segments[0].0].frc,
        v[i].fow == g.segments[legs[i].segments[0].0].fow,
        v[i].dnp matches Some(d) && d.lb == total_length(g, legs[i].segments) && d.ub == d.lb,
        v[i].lfrcnp matches Some(f) && {
            &&& exists|k: int|
                0 <= k < legs[i].segments.len() && g.segments[(
                #[trigger] legs[i].segments[k]).0].frc == f
            &&& forall|k: int|
                0 <= k < legs[i].segments.len() ==> g.segments[(
                #[trigger] legs[i].segments[k]).0].frc <= f
        },
{
    law_points_carry_their_legs(g, legs, end_node, pos_cm, neg_cm, o);
    assert(starts_leg(g, v[i], legs[i], o));
    assert((o.attributes)(legs[i]) is Some);
}

} // verus!
