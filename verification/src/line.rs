//! Encoding a path on the network as a line location reference: both ends are expanded
//! to valid nodes, the path is swept into legs, and every leg becomes a point with the
//! attributes by which it can be found again.
use vstd::prelude::*;

use crate::encode_error::EncodeError;
use crate::expansion::{
    expand_to_valid_node, expansion_of, lemma_expansion_of, turns_by, walk_ends, Expansion,
    ExpansionModel, Turn,
};
use crate::graph::{Graph, GraphModel, NodeId, SegmentId, NO_PRIOR_SEG};
use crate::oracle::{
    answer, lemma_answer, lemma_view_answer, settled, settled_on_views, view_answer,
};

verus! {

/// The longest distance between two consecutive points, in centimetres (15 km).
pub const MAX_LEG_CM: u64 = 1_500_000;

/// A path on the network, and where within it the location starts and ends.
#[derive(Debug)]
pub struct LineLocationInput {
    pub path: Vec<SegmentId>,
    /// The node from which the first segment is entered.
    pub start_node: NodeId,
    /// The distance from `start_node` to the start of the location, in centimetres.
    pub start_offset_cm: i64,
    /// The distance from the end of the location to the end of the path, in centimetres.
    pub end_offset_cm: i64,
    /// How many segments lie before each waypoint that the path must come by. Each
    /// stretch between two of them is swept for itself: a sweep of the whole path would
    /// look for the shortest way to the end, which may miss the waypoint.
    pub via_split_points: Vec<usize>,
}

/// What a `LineLocationInput` holds.
#[verifier::ext_equal]
pub struct LineInputModel {
    pub path: Seq<SegmentId>,
    pub start_node: NodeId,
    pub start_offset_cm: i64,
    pub end_offset_cm: i64,
    pub via_split_points: Seq<usize>,
}

impl View for LineLocationInput {
    type V = LineInputModel;

    open spec fn view(&self) -> LineInputModel {
        LineInputModel {
            path: self.path@,
            start_node: self.start_node,
            start_offset_cm: self.start_offset_cm,
            end_offset_cm: self.end_offset_cm,
            via_split_points: self.via_split_points@,
        }
    }
}

/// A range of angles, in millionths of a degree.
#[derive(Debug, Clone, Copy, PartialEq, Eq, Structural)]
pub struct CircularInterval {
    pub lb: u32,
    pub ub: u32,
}

/// A range of lengths, in centimetres.
#[derive(Debug, Clone, Copy, PartialEq, Eq, Structural)]
pub struct LinearInterval {
    pub lb: i64,
    pub ub: i64,
}

impl CircularInterval {
    /// The range of one angle.
    pub fn point(v: u32) -> (r: CircularInterval)
        ensures
            r == (CircularInterval { lb: v, ub: v }),
    {
        CircularInterval { lb: v, ub: v }
    }
}

impl LinearInterval {
    /// The range of one length.
    pub fn point(v: i64) -> (r: LinearInterval)
        ensures
            r == (LinearInterval { lb: v, ub: v }),
    {
        LinearInterval { lb: v, ub: v }
    }
}

/// A point of a location reference.
#[derive(Debug, Clone, Copy, PartialEq, Eq)]
pub struct Lrp {
    pub coord: (i32, i32),
    pub bearing: CircularInterval,
    pub frc: u8,
    pub fow: u8,
    /// The lowest road class on the way to the next point.
    pub lfrcnp: Option<u8>,
    /// The distance to the next point.
    pub dnp: Option<LinearInterval>,
    pub pos_offset: Option<LinearInterval>,
    pub neg_offset: Option<LinearInterval>,
}

/// A location reference.
#[derive(Debug)]
pub enum LocationReference {
    Line { lrps: Vec<Lrp> },
}

impl LocationReference {
    /// The points.
    pub open spec fn points(self) -> Seq<Lrp> {
        match self {
            LocationReference::Line { lrps } => lrps@,
        }
    }

    /// The points, if the location has any.
    pub fn lrps(&self) -> (r: Option<&Vec<Lrp>>)
        ensures
            r is Some,
            r->Some_0@ == self.points(),
    {
        match self {
            LocationReference::Line { lrps } => Some(lrps),
        }
    }
}

/// A stretch of a path that is to be swept into legs.
#[derive(Debug)]
pub struct SweepQuery {
    pub chunk: Vec<SegmentId>,
    pub start_node: NodeId,
    /// The segment that leads into `start_node`.
    pub start_seg: SegmentId,
    pub end_node: NodeId,
    pub max_leg_cm: u64,
    pub max_turn_microdeg: u32,
    pub zoom: u8,
}

/// What a `SweepQuery` asks.
#[verifier::ext_equal]
pub struct SweepQueryModel {
    pub chunk: Seq<SegmentId>,
    pub start_node: NodeId,
    pub start_seg: SegmentId,
    pub end_node: NodeId,
    pub max_leg_cm: u64,
    pub max_turn_microdeg: u32,
    pub zoom: u8,
}

impl View for SweepQuery {
    type V = SweepQueryModel;

    open spec fn view(&self) -> SweepQueryModel {
        SweepQueryModel {
            chunk: self.chunk@,
            start_node: self.start_node,
            start_seg: self.start_seg,
            end_node: self.end_node,
            max_leg_cm: self.max_leg_cm,
            max_turn_microdeg: self.max_turn_microdeg,
            zoom: self.zoom,
        }
    }
}

/// A leg: what lies between two consecutive points.
#[derive(Debug)]
pub struct SweptLeg {
    pub start_node: NodeId,
    pub segments: Vec<SegmentId>,
}

/// What a `SweptLeg` holds.
#[verifier::ext_equal]
pub struct SweptLegModel {
    pub start_node: NodeId,
    pub segments: Seq<SegmentId>,
}

impl View for SweptLeg {
    type V = SweptLegModel;

    open spec fn view(&self) -> SweptLegModel {
        SweptLegModel { start_node: self.start_node, segments: self.segments@ }
    }
}

/// What some legs hold.
pub open spec fn swept_models(v: Seq<SweptLeg>) -> Seq<SweptLegModel> {
    Seq::new(v.len(), |i: int| v[i]@)
}

/// The answer of a sweep.
#[derive(Debug)]
pub enum SweepOutcome {
    Legs(Vec<SweptLeg>),
    Failed(EncodeError),
}

impl View for SweepOutcome {
    type V = Result<Seq<SweptLegModel>, EncodeError>;

    open spec fn view(&self) -> Result<Seq<SweptLegModel>, EncodeError> {
        match self {
            SweepOutcome::Legs(v) => Ok(swept_models(v@)),
            SweepOutcome::Failed(e) => Err(*e),
        }
    }
}

/// The attributes of the point at the start of a leg.
#[derive(Debug, Clone, Copy, PartialEq, Eq, Structural)]
pub struct LegAttributes {
    pub bearing_microdeg: u32,
    pub frc: u8,
    pub fow: u8,
    pub lfrcnp: u8,
    pub dnp_cm: i64,
}

/// The end of a location: its node and the segment that leads there.
#[derive(Debug, Clone, Copy, PartialEq, Eq, Structural)]
pub struct EndQuery {
    pub node: NodeId,
    pub seg: SegmentId,
}

/// The legs that stretches are swept into.
pub open spec fn sweeps_by<S: Fn(SweepQuery) -> SweepOutcome>(sweep: S) -> spec_fn(
    SweepQueryModel,
) -> Result<Seq<SweptLegModel>, EncodeError> {
    |q: SweepQueryModel| view_answer(sweep, q)
}

/// The attributes of legs.
pub open spec fn attributes_by<A: Fn(&SweptLeg) -> Option<LegAttributes>>(
    attributes: A,
) -> spec_fn(SweptLegModel) -> Option<LegAttributes> {
    |l: SweptLegModel| leg_answer(attributes, l)
}

/// Whether the function gives one answer for each leg.
pub open spec fn settled_on_legs<A: Fn(&SweptLeg) -> Option<LegAttributes>>(f: A) -> bool {
    forall|a: &SweptLeg, c: &SweptLeg, b: Option<LegAttributes>, d: Option<LegAttributes>|
        a@ == c@ && #[trigger] call_ensures(f, (a,), b) && #[trigger] call_ensures(f, (c,), d)
            ==> b == d
}

/// Whether `f` may answer `b` for the leg `l`.
pub open spec fn may_answer_leg<A: Fn(&SweptLeg) -> Option<LegAttributes>>(
    f: A,
    l: SweptLegModel,
    b: Option<LegAttributes>,
) -> bool {
    exists|a: &SweptLeg| a@ == l && #[trigger] call_ensures(f, (a,), b)
}

/// What `f` answers for the leg `l`.
pub open spec fn leg_answer<A: Fn(&SweptLeg) -> Option<LegAttributes>>(
    f: A,
    l: SweptLegModel,
) -> Option<LegAttributes> {
    choose|b: Option<LegAttributes>| may_answer_leg(f, l, b)
}

/// The bearings at ends.
pub open spec fn bearings_by<B: Fn(EndQuery) -> Option<u32>>(bearing: B) -> spec_fn(
    EndQuery,
) -> Option<u32> {
    |q: EndQuery| answer(bearing, q)
}

/// What a location is encoded by.
pub struct LineOracles {
    pub max_turn: u32,
    pub zoom: u8,
    pub turn: spec_fn(Turn) -> Option<u32>,
    pub sweep: spec_fn(SweepQueryModel) -> Result<Seq<SweptLegModel>, EncodeError>,
    pub attributes: spec_fn(SweptLegModel) -> Option<LegAttributes>,
    pub bearing: spec_fn(EndQuery) -> Option<u32>,
}

/// The path with what the ends were expanded by.
pub open spec fn full_path(
    path: Seq<SegmentId>,
    start: ExpansionModel,
    end: ExpansionModel,
) -> Seq<SegmentId> {
    start.segments.reverse() + path + end.segments
}

/// Where the stretches of the full path end: at each waypoint, and at the end.
pub open spec fn stretch_ends(splits: Seq<usize>, prefix: int, total: int) -> Seq<int> {
    Seq::new(
        splits.len() + 1,
        |i: int|
            if i < splits.len() {
                splits[i] + prefix
            } else {
                total
            },
    )
}

/// A sweep under way: the legs so far, and where and how the next stretch is entered.
#[verifier::ext_equal]
pub struct Sweep {
    pub legs: Seq<SweptLegModel>,
    pub node: NodeId,
    pub seg: SegmentId,
    pub idx: int,
}

/// The segment by which the last of the legs arrives, or the one before them.
pub open spec fn arrival(legs: Seq<SweptLegModel>, before: SegmentId) -> SegmentId {
    if legs.len() == 0 || legs.last().segments.len() == 0 {
        before
    } else {
        legs.last().segments.last()
    }
}

/// Where a stretch from `s` up to `to` ends.
pub open spec fn stretch_end(
    g: GraphModel,
    full: Seq<SegmentId>,
    s: Sweep,
    to: int,
    end_node: NodeId,
) -> Option<NodeId> {
    if to == full.len() {
        Some(end_node)
    } else {
        g.walk_end(s.node, full.subrange(s.idx, to))
    }
}

/// The sweep with one more stretch.
pub open spec fn sweeping(
    g: GraphModel,
    full: Seq<SegmentId>,
    s: Sweep,
    to: int,
    end_node: NodeId,
    o: LineOracles,
) -> Result<Sweep, EncodeError> {
    match stretch_end(g, full, s, to, end_node) {
        None => Err(EncodeError::Disconnected { index: s.idx as usize }),
        Some(node) => match (o.sweep)(
            SweepQueryModel {
                chunk: full.subrange(s.idx, to),
                start_node: s.node,
                start_seg: s.seg,
                end_node: node,
                max_leg_cm: MAX_LEG_CM,
                max_turn_microdeg: o.max_turn,
                zoom: o.zoom,
            },
        ) {
            Err(e) => Err(e),
            Ok(legs) => Ok(
                Sweep { legs: s.legs + legs, node, seg: arrival(legs, s.seg), idx: to },
            ),
        },
    }
}

/// The sweep after the first `n` stretches.
pub open spec fn swept(
    g: GraphModel,
    full: Seq<SegmentId>,
    ends: Seq<int>,
    n: int,
    start_node: NodeId,
    end_node: NodeId,
    o: LineOracles,
) -> Result<Sweep, EncodeError>
    decreases n,
{
    if n <= 0 {
        Ok(
            Sweep {
                legs: Seq::empty(),
                node: start_node,
                seg: SegmentId(NO_PRIOR_SEG),
                idx: 0,
            },
        )
    } else {
        match swept(g, full, ends, n - 1, start_node, end_node, o) {
            Err(e) => Err(e),
            Ok(s) => sweeping(g, full, s, ends[n - 1], end_node, o),
        }
    }
}

/// The place of a node.
pub open spec fn coord_of(g: GraphModel, n: NodeId) -> Result<(i32, i32), EncodeError> {
    if g.nodes.contains_key(n.0) {
        Ok((g.nodes[n.0].lon, g.nodes[n.0].lat))
    } else {
        Err(EncodeError::UnknownNode(n))
    }
}

/// The point at the start of a leg.
pub open spec fn leg_point(g: GraphModel, leg: SweptLegModel, o: LineOracles) -> Result<
    Lrp,
    EncodeError,
> {
    match (o.attributes)(leg) {
        None => Err(EncodeError::UnknownSegment(leg.segments[0])),
        Some(a) => match coord_of(g, leg.start_node) {
            Err(e) => Err(e),
            Ok(coord) => Ok(
                Lrp {
                    coord,
                    bearing: CircularInterval {
                        lb: a.bearing_microdeg,
                        ub: a.bearing_microdeg,
                    },
                    frc: a.frc,
                    fow: a.fow,
                    lfrcnp: Some(a.lfrcnp),
                    dnp: Some(LinearInterval { lb: a.dnp_cm, ub: a.dnp_cm }),
                    pos_offset: None,
                    neg_offset: None,
                },
            ),
        },
    }
}

/// The points at the starts of the first `n` legs.
pub open spec fn leg_points(
    g: GraphModel,
    legs: Seq<SweptLegModel>,
    n: int,
    o: LineOracles,
) -> Result<Seq<Lrp>, EncodeError>
    decreases n,
{
    if n <= 0 {
        Ok(Seq::empty())
    } else {
        match leg_points(g, legs, n - 1, o) {
            Err(e) => Err(e),
            Ok(v) => match leg_point(g, legs[n - 1], o) {
                Err(e) => Err(e),
                Ok(p) => Ok(v.push(p)),
            },
        }
    }
}

/// The point at the end of the location, which `seg` leads to.
pub open spec fn end_point(g: GraphModel, end_node: NodeId, seg: SegmentId, o: LineOracles) -> Result<
    Lrp,
    EncodeError,
> {
    if !g.segments.contains_key(seg.0) {
        Err(EncodeError::UnknownSegment(seg))
    } else {
        match (o.bearing)(EndQuery { node: end_node, seg }) {
            None => Err(EncodeError::UnknownSegment(seg)),
            Some(b) => match coord_of(g, end_node) {
                Err(e) => Err(e),
                Ok(coord) => Ok(
                    Lrp {
                        coord,
                        bearing: CircularInterval { lb: b, ub: b },
                        frc: g.segments[seg.0].frc,
                        fow: g.segments[seg.0].fow,
                        lfrcnp: None,
                        dnp: None,
                        pos_offset: None,
                        neg_offset: None,
                    },
                ),
            },
        }
    }
}

/// The length of the leg from a point.
pub open spec fn leg_cm(p: Lrp) -> i64 {
    p.dnp->Some_0.lb
}

/// The range of an offset, if there is one.
pub open spec fn trimmed(offset_cm: int) -> Option<LinearInterval> {
    if offset_cm > 0 {
        Some(LinearInterval { lb: offset_cm as i64, ub: offset_cm as i64 })
    } else {
        None
    }
}

/// The points of legs and end with the offsets: an offset must be shorter than the leg
/// that it trims.
pub open spec fn with_offsets(
    starts: Seq<Lrp>,
    end: Lrp,
    pos_cm: int,
    neg_cm: int,
) -> Result<Seq<Lrp>, EncodeError> {
    if pos_cm > 0 && pos_cm >= leg_cm(starts[0]) {
        Err(
            EncodeError::OffsetExceedsLeg {
                offset_cm: pos_cm as i128,
                leg_cm: leg_cm(starts[0]),
            },
        )
    } else if neg_cm > 0 && neg_cm >= leg_cm(starts.last()) {
        Err(
            EncodeError::OffsetExceedsLeg {
                offset_cm: neg_cm as i128,
                leg_cm: leg_cm(starts.last()),
            },
        )
    } else {
        Ok(
            starts.update(0, Lrp { pos_offset: trimmed(pos_cm), ..starts[0] }).push(
                Lrp { neg_offset: trimmed(neg_cm), ..end },
            ),
        )
    }
}

/// The points of a location whose legs are known.
pub open spec fn line_points(
    g: GraphModel,
    legs: Seq<SweptLegModel>,
    end_node: NodeId,
    pos_cm: int,
    neg_cm: int,
    o: LineOracles,
) -> Result<Seq<Lrp>, EncodeError> {
    if legs.len() == 0 {
        Err(EncodeError::EmptyPath)
    } else {
        match leg_points(g, legs, legs.len() as int, o) {
            Err(e) => Err(e),
            Ok(starts) => match end_point(g, end_node, legs.last().segments.last(), o) {
                Err(e) => Err(e),
                Ok(end) => with_offsets(starts, end, pos_cm, neg_cm),
            },
        }
    }
}

/// The points of a location whose ends are expanded.
pub open spec fn expanded_line(
    g: GraphModel,
    input: LineInputModel,
    start: ExpansionModel,
    end: ExpansionModel,
    o: LineOracles,
) -> Result<Seq<Lrp>, EncodeError> {
    let full = full_path(input.path, start, end);
    let ends = stretch_ends(
        input.via_split_points,
        start.segments.len() as int,
        full.len() as int,
    );
    match swept(g, full, ends, ends.len() as int, start.node, end.node, o) {
        Err(e) => Err(e),
        Ok(s) => line_points(
            g,
            s.legs,
            end.node,
            input.start_offset_cm + start.distance_cm,
            input.end_offset_cm + end.distance_cm,
            o,
        ),
    }
}

/// The points of a location.
pub open spec fn line_of(g: GraphModel, input: LineInputModel, o: LineOracles) -> Result<
    Seq<Lrp>,
    EncodeError,
> {
    if input.path.len() == 0 {
        Err(EncodeError::EmptyPath)
    } else {
        match g.walk_end(input.start_node, input.path) {
            None => Err(EncodeError::Disconnected { index: 0 }),
            Some(end_node) => expanded_line(
                g,
                input,
                expansion_of(
                    g,
                    input.start_node,
                    input.path[0],
                    MAX_LEG_CM as int,
                    o.max_turn,
                    o.turn,
                ),
                expansion_of(
                    g,
                    end_node,
                    input.path.last(),
                    MAX_LEG_CM as int,
                    o.max_turn,
                    o.turn,
                ),
                o,
            ),
        }
    }
}

/// Whether the walks outward from both ends of the location stop.
pub open spec fn both_walks_end<F: Fn(Turn) -> Option<u32>>(
    g: GraphModel,
    input: LineInputModel,
    max_turn: u32,
    turn: F,
) -> bool {
    input.path.len() > 0 ==> (match g.walk_end(input.start_node, input.path) {
        None => true,
        Some(end_node) => walk_ends(
            g,
            input.start_node,
            input.path[0],
            MAX_LEG_CM as int,
            max_turn,
            turn,
        ) && walk_ends(g, end_node, input.path.last(), MAX_LEG_CM as int, max_turn, turn),
    })
}

/// Whether the waypoints are in order and on the path.
pub open spec fn via_in_order(input: LineInputModel) -> bool {
    &&& forall|i: int, j: int|
        0 <= i <= j < input.via_split_points.len() ==> #[trigger] input.via_split_points[i]
            <= #[trigger] input.via_split_points[j]
    &&& forall|i: int|
        0 <= i < input.via_split_points.len() ==> #[trigger] input.via_split_points[i]
            <= input.path.len()
}

/// Whether every leg that the sweep answers has a segment.
pub open spec fn legs_have_segments<S: Fn(SweepQuery) -> SweepOutcome>(sweep: S) -> bool {
    forall|q: SweepQuery, r: SweepOutcome, i: int|
        #![trigger call_ensures(sweep, (q,), r), r->Legs_0@[i]]
        call_ensures(sweep, (q,), r) && r is Legs && 0 <= i < r->Legs_0@.len()
            ==> r->Legs_0@[i].segments@.len() > 0
}

proof fn lemma_leg_answer<A: Fn(&SweptLeg) -> Option<LegAttributes>>(
    f: A,
    a: &SweptLeg,
    b: Option<LegAttributes>,
)
    requires
        call_ensures(f, (a,), b),
    ensures
        settled_on_legs(f) ==> b == leg_answer(f, a@),
{
    assert(may_answer_leg(f, a@, b));
}

proof fn lemma_swept_stops(
    g: GraphModel,
    full: Seq<SegmentId>,
    ends: Seq<int>,
    k: int,
    n: int,
    start_node: NodeId,
    end_node: NodeId,
    o: LineOracles,
)
    requires
        0 <= k <= n,
        swept(g, full, ends, k, start_node, end_node, o) is Err,
    ensures
        swept(g, full, ends, n, start_node, end_node, o) == swept(
            g,
            full,
            ends,
            k,
            start_node,
            end_node,
            o,
        ),
    decreases n - k,
{
    if k < n {
        lemma_swept_stops(g, full, ends, k, n - 1, start_node, end_node, o);
    }
}

proof fn lemma_leg_points_stop(
    g: GraphModel,
    legs: Seq<SweptLegModel>,
    k: int,
    n: int,
    o: LineOracles,
)
    requires
        0 <= k <= n,
        leg_points(g, legs, k, o) is Err,
    ensures
        leg_points(g, legs, n, o) == leg_points(g, legs, k, o),
    decreases n - k,
{
    if k < n {
        lemma_leg_points_stop(g, legs, k, n - 1, o);
    }
}

/// The place of a node.
pub fn node_coord(graph: &Graph, node: NodeId) -> (r: Result<(i32, i32), EncodeError>)
    ensures
        r == coord_of(graph@, node),
{
    match graph.node(node) {
        Some(n) => Ok((n.lon, n.lat)),
        None => Err(EncodeError::UnknownNode(node)),
    }
}

fn copied(v: &Vec<SegmentId>, from: usize, to: usize) -> (r: Vec<SegmentId>)
    requires
        from <= to <= v@.len(),
    ensures
        r@ == v@.subrange(from as int, to as int),
{
    let mut r: Vec<SegmentId> = Vec::new();
    let mut i: usize = from;
    while i < to
        invariant
            from <= i <= to <= v@.len(),
            r@ == v@.subrange(from as int, i as int),
        decreases to - i,
    {
        r.push(v[i]);
        i += 1;
        assert(r@ =~= v@.subrange(from as int, i as int));
    }
    r
}

fn join_path(path: &Vec<SegmentId>, start: &Expansion, end: &Expansion) -> (full: Vec<SegmentId>)
    ensures
        full@ == full_path(path@, start@, end@),
{
    let mut full: Vec<SegmentId> = Vec::new();
    let mut i: usize = start.segments.len();
    let ghost back = start.segments@.reverse();
    while i > 0
        invariant
            i <= start.segments@.len(),
            back == start.segments@.reverse(),
            full@ == back.take(start.segments@.len() - i),
        decreases i,
    {
        i -= 1;
        full.push(start.segments[i]);
        assert(full@ =~= back.take(start.segments@.len() - i));
    }
    assert(back.take(back.len() as int) =~= back);
    let mut middle: Vec<SegmentId> = copied(path, 0, path.len());
    assert(path@.subrange(0, path@.len() as int) =~= path@);
    full.append(&mut middle);
    let mut tail: Vec<SegmentId> = copied(&end.segments, 0, end.segments.len());
    assert(end.segments@.subrange(0, end.segments@.len() as int) =~= end.segments@);
    full.append(&mut tail);
    full
}

fn stretch_bounds(splits: &Vec<usize>, prefix: usize, total: usize) -> (r: Vec<usize>)
    requires
        forall|i: int| 0 <= i < splits@.len() ==> #[trigger] splits@[i] + prefix <= total,
    ensures
        r@.len() == splits@.len() + 1,
        forall|i: int|
            0 <= i < r@.len() ==> #[trigger] r@[i] == stretch_ends(
                splits@,
                prefix as int,
                total as int,
            )[i],
{
    let mut r: Vec<usize> = Vec::new();
    let mut i: usize = 0;
    while i < splits.len()
        invariant
            i <= splits@.len(),
            r@.len() == i,
            forall|j: int| 0 <= j < splits@.len() ==> #[trigger] splits@[j] + prefix <= total,
            forall|j: int|
                0 <= j < i ==> #[trigger] r@[j] == stretch_ends(
                    splits@,
                    prefix as int,
                    total as int,
                )[j],
        decreases splits@.len() - i,
    {
        r.push(splits[i] + prefix);
        i += 1;
    }
    r.push(total);
    r
}

/// Sweep the stretches of the full path, one after the other.
fn sweep_all<S: Fn(SweepQuery) -> SweepOutcome>(
    graph: &Graph,
    full: &Vec<SegmentId>,
    splits: &Vec<usize>,
    prefix: usize,
    start_node: NodeId,
    end_node: NodeId,
    max_turn_microdeg: u32,
    zoom: u8,
    sweep: &S,
    Ghost(o): Ghost<LineOracles>,
) -> (r: Result<Vec<SweptLeg>, EncodeError>)
    requires
        forall|q: SweepQuery| call_requires(*sweep, (q,)),
        legs_have_segments(*sweep),
        o.max_turn == max_turn_microdeg,
        o.zoom == zoom,
        o.sweep == sweeps_by(*sweep),
        forall|i: int| 0 <= i < splits@.len() ==> #[trigger] splits@[i] + prefix <= full@.len(),
        forall|i: int, j: int|
            0 <= i <= j < splits@.len() ==> #[trigger] splits@[i] <= #[trigger] splits@[j],
    ensures
        r matches Ok(legs) ==> forall|i: int|
            0 <= i < legs@.len() ==> (#[trigger] legs@[i]).segments@.len() > 0,
        settled_on_views(*sweep) ==> ({
            let ends = stretch_ends(splits@, prefix as int, full@.len() as int);
            match r {
                Ok(legs) => swept(
                    graph@,
                    full@,
                    ends,
                    ends.len() as int,
                    start_node,
                    end_node,
                    o,
                ) matches Ok(s) && s.legs == swept_models(legs@),
                Err(e) => swept(
                    graph@,
                    full@,
                    ends,
                    ends.len() as int,
                    start_node,
                    end_node,
                    o,
                ) == Err::<Sweep, EncodeError>(e),
            }
        }),
{
    let ghost ends = stretch_ends(splits@, prefix as int, full@.len() as int);
    let ghost sure = settled_on_views(*sweep);
    let mut legs: Vec<SweptLeg> = Vec::new();
    let mut node: NodeId = start_node;
    let mut seg = SegmentId(NO_PRIOR_SEG);
    let mut idx: usize = 0;
    let total: usize = full.len();
    let bounds: Vec<usize> = stretch_bounds(splits, prefix, total);
    let mut k: usize = 0;
    assert(swept_models(legs@) =~= Seq::empty());
    while k < bounds.len()
        invariant
            total == full@.len(),
            k <= bounds@.len(),
            sure == settled_on_views(*sweep),
            ends == stretch_ends(splits@, prefix as int, full@.len() as int),
            bounds@.len() == ends.len(),
            forall|i: int| 0 <= i < ends.len() ==> #[trigger] bounds@[i] == ends[i],
            idx <= full@.len(),
            k > 0 ==> idx == ends[k - 1],
            k == 0 ==> idx == 0,
            forall|q: SweepQuery| call_requires(*sweep, (q,)),
            legs_have_segments(*sweep),
            o.max_turn == max_turn_microdeg,
            o.zoom == zoom,
            o.sweep == sweeps_by(*sweep),
            forall|i: int| 0 <= i < splits@.len() ==> #[trigger] splits@[i] + prefix <= full@.len(),
            forall|i: int, j: int|
                0 <= i <= j < splits@.len() ==> #[trigger] splits@[i] <= #[trigger] splits@[j],
            forall|i: int| 0 <= i < legs@.len() ==> (#[trigger] legs@[i]).segments@.len() > 0,
            sure ==> swept(graph@, full@, ends, k as int, start_node, end_node, o) == Ok::<
                Sweep,
                EncodeError,
            >(Sweep { legs: swept_models(legs@), node, seg, idx: idx as int }),
        decreases bounds@.len() - k,
    {
        let to: usize = bounds[k];
        assert(to == ends[k as int]);
        assert(idx <= to) by {
            if 0 < k < splits@.len() {
                assert(splits@[k - 1] <= splits@[k as int]);
            }
        }
        let chunk: Vec<SegmentId> = copied(full, idx, to);
        let next: NodeId = if to == total {
            end_node
        } else {
            match graph.trace_end_node(node, chunk.as_slice()) {
                Some(n) => n,
                None => {
                    proof {
                        if sure {
                            lemma_swept_stops(
                                graph@,
                                full@,
                                ends,
                                k + 1,
                                ends.len() as int,
                                start_node,
                                end_node,
                                o,
                            );
                        }
                    }
                    return Err(EncodeError::Disconnected { index: idx });
                },
            }
        };
        let q = SweepQuery {
            chunk,
            start_node: node,
            start_seg: seg,
            end_node: next,
            max_leg_cm: MAX_LEG_CM,
            max_turn_microdeg,
            zoom,
        };
        let ghost asked = q;
        let outcome: SweepOutcome = sweep(q);
        proof {
            lemma_view_answer(*sweep, asked, outcome);
        }
        match outcome {
            SweepOutcome::Failed(e) => {
                proof {
                    if sure {
                        lemma_swept_stops(
                            graph@,
                            full@,
                            ends,
                            k + 1,
                            ends.len() as int,
                            start_node,
                            end_node,
                            o,
                        );
                    }
                }
                return Err(e);
            },
            SweepOutcome::Legs(v) => {
                let ghost before = legs@;
                let ghost found = v@;
                let n: usize = v.len();
                let mut v: Vec<SweptLeg> = v;
                if n > 0 {
                    let m: usize = v[n - 1].segments.len();
                    if m > 0 {
                        seg = v[n - 1].segments[m - 1];
                    }
                }
                legs.append(&mut v);
                proof {
                    assert(swept_models(legs@) =~= swept_models(before) + swept_models(found));
                    assert forall|i: int| 0 <= i < legs@.len() implies (
                    #[trigger] legs@[i]).segments@.len() > 0 by {
                        if i >= before.len() {
                            assert(legs@[i] == found[i - before.len()]);
                            assert(outcome->Legs_0@[i - before.len()].segments@.len() > 0);
                        }
                    }
                }
            },
        }
        node = next;
        idx = to;
        k += 1;
    }
    Ok(legs)
}

fn start_points<A: Fn(&SweptLeg) -> Option<LegAttributes>>(
    graph: &Graph,
    legs: &Vec<SweptLeg>,
    attributes: &A,
    Ghost(o): Ghost<LineOracles>,
) -> (r: Result<Vec<Lrp>, EncodeError>)
    requires
        forall|l: &SweptLeg| call_requires(*attributes, (l,)),
        o.attributes == attributes_by(*attributes),
        forall|i: int| 0 <= i < legs@.len() ==> (#[trigger] legs@[i]).segments@.len() > 0,
    ensures
        r matches Ok(v) ==> v@.len() == legs@.len() && forall|i: int|
            0 <= i < v@.len() ==> (#[trigger] v@[i]).dnp is Some && v@[i].pos_offset is None,
        settled_on_legs(*attributes) ==> (match r {
            Ok(v) => leg_points(graph@, swept_models(legs@), legs@.len() as int, o) == Ok::<
                Seq<Lrp>,
                EncodeError,
            >(v@),
            Err(e) => leg_points(graph@, swept_models(legs@), legs@.len() as int, o) == Err::<
                Seq<Lrp>,
                EncodeError,
            >(e),
        }),
{
    let ghost all = swept_models(legs@);
    let ghost sure = settled_on_legs(*attributes);
    let mut v: Vec<Lrp> = Vec::new();
    let mut i: usize = 0;
    while i < legs.len()
        invariant
            i <= legs@.len(),
            v@.len() == i,
            all == swept_models(legs@),
            sure == settled_on_legs(*attributes),
            forall|l: &SweptLeg| call_requires(*attributes, (l,)),
            o.attributes == attributes_by(*attributes),
            forall|i: int| 0 <= i < legs@.len() ==> (#[trigger] legs@[i]).segments@.len() > 0,
            forall|i: int|
                0 <= i < v@.len() ==> (#[trigger] v@[i]).dnp is Some && v@[i].pos_offset is None,
            sure ==> leg_points(graph@, all, i as int, o) == Ok::<Seq<Lrp>, EncodeError>(v@),
        decreases legs@.len() - i,
    {
        let leg: &SweptLeg = &legs[i];
        let a: Option<LegAttributes> = attributes(leg);
        proof {
            lemma_leg_answer(*attributes, leg, a);
            assert(all[i as int] == leg@);
            if sure && leg_point(graph@, all[i as int], o) is Err {
                lemma_leg_points_stop(graph@, all, i + 1, legs@.len() as int, o);
            }
        }
        match a {
            None => {
                return Err(EncodeError::UnknownSegment(leg.segments[0]));
            },
            Some(a) => match node_coord(graph, leg.start_node) {
                Err(e) => {
                    return Err(e);
                },
                Ok(coord) => {
                    v.push(
                        Lrp {
                            coord,
                            bearing: CircularInterval::point(a.bearing_microdeg),
                            frc: a.frc,
                            fow: a.fow,
                            lfrcnp: Some(a.lfrcnp),
                            dnp: Some(LinearInterval::point(a.dnp_cm)),
                            pos_offset: None,
                            neg_offset: None,
                        },
                    );
                },
            },
        }
        i += 1;
    }
    Ok(v)
}

fn last_point<B: Fn(EndQuery) -> Option<u32>>(
    graph: &Graph,
    end_node: NodeId,
    seg: SegmentId,
    bearing: &B,
    Ghost(o): Ghost<LineOracles>,
) -> (r: Result<Lrp, EncodeError>)
    requires
        forall|q: EndQuery| call_requires(*bearing, (q,)),
        o.bearing == bearings_by(*bearing),
    ensures
        r matches Ok(p) ==> p.neg_offset is None,
        settled(*bearing) ==> r == end_point(graph@, end_node, seg, o),
{
    match graph.segment(seg) {
        None => Err(EncodeError::UnknownSegment(seg)),
        Some(s) => {
            let q = EndQuery { node: end_node, seg };
            let b: Option<u32> = bearing(q);
            proof {
                lemma_answer(*bearing, q, b);
            }
            match b {
                None => Err(EncodeError::UnknownSegment(seg)),
                Some(b) => match node_coord(graph, end_node) {
                    Err(e) => Err(e),
                    Ok(coord) => Ok(
                        Lrp {
                            coord,
                            bearing: CircularInterval::point(b),
                            frc: s.frc,
                            fow: s.fow,
                            lfrcnp: None,
                            dnp: None,
                            pos_offset: None,
                            neg_offset: None,
                        },
                    ),
                },
            }
        },
    }
}

/// Add the offsets to the points: an offset must be shorter than the leg that it trims.
fn trim(starts: Vec<Lrp>, end: Lrp, pos_cm: i128, neg_cm: i128) -> (r: Result<
    Vec<Lrp>,
    EncodeError,
>)
    requires
        starts@.len() > 0,
        forall|i: int| 0 <= i < starts@.len() ==> (#[trigger] starts@[i]).dnp is Some,
        starts@[0].pos_offset is None,
        end.neg_offset is None,
    ensures
        (match r {
            Ok(v) => with_offsets(starts@, end, pos_cm as int, neg_cm as int) == Ok::<
                Seq<Lrp>,
                EncodeError,
            >(v@),
            Err(e) => with_offsets(starts@, end, pos_cm as int, neg_cm as int) == Err::<
                Seq<Lrp>,
                EncodeError,
            >(e),
        }),
{
    let ghost all = starts@;
    let mut lrps: Vec<Lrp> = starts;
    let mut end: Lrp = end;
    let n: usize = lrps.len();
    let last_leg_cm: i64 = match lrps[n - 1].dnp {
        Some(d) => d.lb,
        None => 0,
    };
    let mut first: Lrp = lrps[0];
    if pos_cm > 0 {
        let first_leg_cm: i64 = match first.dnp {
            Some(d) => d.lb,
            None => 0,
        };
        if pos_cm >= first_leg_cm as i128 {
            return Err(
                EncodeError::OffsetExceedsLeg { offset_cm: pos_cm, leg_cm: first_leg_cm },
            );
        }
        first.pos_offset = Some(LinearInterval::point(pos_cm as i64));
    }
    if neg_cm > 0 {
        if neg_cm >= last_leg_cm as i128 {
            return Err(EncodeError::OffsetExceedsLeg { offset_cm: neg_cm, leg_cm: last_leg_cm });
        }
        end.neg_offset = Some(LinearInterval::point(neg_cm as i64));
    }
    lrps.set(0, first);
    lrps.push(end);
    Ok(lrps)
}

/// Encode a path as a location reference.
///
/// Both ends are expanded outward to valid nodes, and the offsets grow by what is walked.
/// Each stretch between waypoints is swept into legs for itself, so that every waypoint
/// gets a point of its own; the segment by which a stretch was left counts for the first
/// turn of the next one. An offset must be shorter than the leg that it trims.
///
/// `turn` tells how sharp a turn is, `sweep` the legs of a stretch, `attributes` those of
/// the point at the start of a leg, and `bearing` the bearing back along the last
/// segment.
pub fn encode_line<
    F: Fn(Turn) -> Option<u32>,
    S: Fn(SweepQuery) -> SweepOutcome,
    A: Fn(&SweptLeg) -> Option<LegAttributes>,
    B: Fn(EndQuery) -> Option<u32>,
>(
    graph: &Graph,
    input: &LineLocationInput,
    max_turn_microdeg: u32,
    zoom: u8,
    turn: &F,
    sweep: &S,
    attributes: &A,
    bearing: &B,
) -> (r: Result<LocationReference, EncodeError>)
    requires
        graph@.wf(),
        forall|t: Turn| call_requires(*turn, (t,)),
        forall|q: SweepQuery| call_requires(*sweep, (q,)),
        forall|l: &SweptLeg| call_requires(*attributes, (l,)),
        forall|q: EndQuery| call_requires(*bearing, (q,)),
        legs_have_segments(*sweep),
        via_in_order(input@),
        both_walks_end(graph@, input@, max_turn_microdeg, *turn),
    ensures
        input.path@.len() == 0 ==> r == Err::<LocationReference, EncodeError>(
            EncodeError::EmptyPath,
        ),
        input.path@.len() > 0 && graph@.walk_end(input.start_node, input.path@) is None ==> r
            == Err::<LocationReference, EncodeError>(EncodeError::Disconnected { index: 0 }),
        settled(*turn) && settled_on_views(*sweep) && settled_on_legs(*attributes) && settled(
            *bearing,
        ) ==> ({
            let o = LineOracles {
                max_turn: max_turn_microdeg,
                zoom,
                turn: turns_by(*turn),
                sweep: sweeps_by(*sweep),
                attributes: attributes_by(*attributes),
                bearing: bearings_by(*bearing),
            };
            match r {
                Ok(l) => line_of(graph@, input@, o) == Ok::<Seq<Lrp>, EncodeError>(l.points()),
                Err(e) => line_of(graph@, input@, o) == Err::<Seq<Lrp>, EncodeError>(e),
            }
        }),
{
    let ghost o = LineOracles {
        max_turn: max_turn_microdeg,
        zoom,
        turn: turns_by(*turn),
        sweep: sweeps_by(*sweep),
        attributes: attributes_by(*attributes),
        bearing: bearings_by(*bearing),
    };
    let n: usize = input.path.len();
    if n == 0 {
        return Err(EncodeError::EmptyPath);
    }
    let first_seg: SegmentId = input.path[0];
    let last_seg: SegmentId = input.path[n - 1];
    let end_node: NodeId = match graph.trace_end_node(input.start_node, input.path.as_slice()) {
        Some(e) => e,
        None => {
            return Err(EncodeError::Disconnected { index: 0 });
        },
    };
    let start: Expansion = expand_to_valid_node(
        graph,
        input.start_node,
        first_seg,
        MAX_LEG_CM,
        max_turn_microdeg,
        turn,
    );
    let end: Expansion = expand_to_valid_node(
        graph,
        end_node,
        last_seg,
        MAX_LEG_CM,
        max_turn_microdeg,
        turn,
    );
    proof {
        if settled(*turn) {
            lemma_expansion_of(
                graph@,
                input.start_node,
                first_seg,
                MAX_LEG_CM as int,
                max_turn_microdeg,
                o.turn,
                start@,
            );
            lemma_expansion_of(
                graph@,
                end_node,
                last_seg,
                MAX_LEG_CM as int,
                max_turn_microdeg,
                o.turn,
                end@,
            );
        }
    }
    let full: Vec<SegmentId> = join_path(&input.path, &start, &end);
    let pos_cm: i128 = input.start_offset_cm as i128 + start.distance_cm as i128;
    let neg_cm: i128 = input.end_offset_cm as i128 + end.distance_cm as i128;
    let prefix: usize = start.segments.len();
    let legs: Vec<SweptLeg> = match sweep_all(
        graph,
        &full,
        &input.via_split_points,
        prefix,
        start.node,
        end.node,
        max_turn_microdeg,
        zoom,
        sweep,
        Ghost(o),
    ) {
        Ok(v) => v,
        Err(e) => {
            return Err(e);
        },
    };
    let count: usize = legs.len();
    if count == 0 {
        return Err(EncodeError::EmptyPath);
    }
    let starts: Vec<Lrp> = match start_points(graph, &legs, attributes, Ghost(o)) {
        Ok(v) => v,
        Err(e) => {
            return Err(e);
        },
    };
    let m: usize = legs[count - 1].segments.len();
    let last_leg_seg: SegmentId = legs[count - 1].segments[m - 1];
    let last: Lrp = match last_point(graph, end.node, last_leg_seg, bearing, Ghost(o)) {
        Ok(p) => p,
        Err(e) => {
            return Err(e);
        },
    };
    match trim(starts, last, pos_cm, neg_cm) {
        Ok(lrps) => Ok(LocationReference::Line { lrps }),
        Err(e) => Err(e),
    }
}

proof fn lemma_leg_points(g: GraphModel, legs: Seq<SweptLegModel>, n: int, o: LineOracles)
    requires
        n <= legs.len(),
    ensures
        leg_points(g, legs, n, o) matches Ok(v) ==> {
            &&& v.len() == (if n < 0 {
                0
            } else {
                n
            })
            &&& forall|i: int|
                0 <= i < v.len() ==> Ok::<Lrp, EncodeError>(#[trigger] v[i]) == leg_point(
                    g,
                    legs[i],
                    o,
                )
        },
    decreases n,
{
    if n > 0 {
        lemma_leg_points(g, legs, n - 1, o);
    }
}

/// Whether the points have the shape of a line location: at least two; each but the last
/// with the distance and the lowest class to the next; a positive offset only at the
/// first, a negative one only at the last, and each of them shorter than its leg.
pub open spec fn line_shape(v: Seq<Lrp>) -> bool {
    &&& v.len() >= 2
    &&& forall|i: int|
        0 <= i < v.len() - 1 ==> (#[trigger] v[i]).dnp is Some && v[i].lfrcnp is Some
            && v[i].neg_offset is None
    &&& forall|i: int| 0 < i < v.len() ==> (#[trigger] v[i]).pos_offset is None
    &&& v.last().dnp is None
    &&& v.last().lfrcnp is None
    &&& v[0].pos_offset matches Some(p) ==> 0 < p.lb < leg_cm(v[0]) && p.ub == p.lb
    &&& v.last().neg_offset matches Some(p) ==> 0 < p.lb < leg_cm(v[v.len() - 2]) && p.ub == p.lb
}

/// A location that is encoded has the shape of a line location.
pub proof fn law_lines_have_shape(g: GraphModel, input: LineInputModel, o: LineOracles)
    ensures
        line_of(g, input, o) matches Ok(v) ==> line_shape(v),
{
    if line_of(g, input, o) is Ok {
        let end_node = g.walk_end(input.start_node, input.path)->Some_0;
        let start = expansion_of(
            g,
            input.start_node,
            input.path[0],
            MAX_LEG_CM as int,
            o.max_turn,
            o.turn,
        );
        let end = expansion_of(
            g,
            end_node,
            input.path.last(),
            MAX_LEG_CM as int,
            o.max_turn,
            o.turn,
        );
        let full = full_path(input.path, start, end);
        let ends = stretch_ends(
            input.via_split_points,
            start.segments.len() as int,
            full.len() as int,
        );
        let legs = swept(
            g,
            full,
            ends,
            ends.len() as int,
            start.node,
            end.node,
            o,
        )->Ok_0.legs;
        lemma_leg_points(g, legs, legs.len() as int, o);
        let starts = leg_points(g, legs, legs.len() as int, o)->Ok_0;
        let v = line_of(g, input, o)->Ok_0;
        assert forall|i: int| 0 <= i < v.len() - 1 implies (#[trigger] v[i]).dnp is Some
            && v[i].lfrcnp is Some && v[i].neg_offset is None && v[i].dnp == starts[i].dnp && (i > 0
            ==> v[i].pos_offset is None) by {
            assert(Ok::<Lrp, EncodeError>(starts[i]) == leg_point(g, legs[i], o));
        }
    }
}

/// Whether the first leg of every stretch starts where the stretch does.
pub open spec fn starts_at_stretches(
    sweep: spec_fn(SweepQueryModel) -> Result<Seq<SweptLegModel>, EncodeError>,
) -> bool {
    forall|q: SweepQueryModel|
        (match #[trigger] sweep(q) {
            Ok(legs) => legs.len() > 0 && legs[0].start_node == q.start_node,
            Err(_) => true,
        })
}

proof fn lemma_swept_before(
    g: GraphModel,
    full: Seq<SegmentId>,
    ends: Seq<int>,
    k: int,
    n: int,
    start_node: NodeId,
    end_node: NodeId,
    o: LineOracles,
)
    requires
        0 <= k <= n,
        swept(g, full, ends, n, start_node, end_node, o) is Ok,
    ensures
        swept(g, full, ends, k, start_node, end_node, o) is Ok,
        ({
            let a = swept(g, full, ends, k, start_node, end_node, o)->Ok_0.legs;
            let b = swept(g, full, ends, n, start_node, end_node, o)->Ok_0.legs;
            a.len() <= b.len() && b.take(a.len() as int) == a
        }),
    decreases n - k,
{
    let a = swept(g, full, ends, k, start_node, end_node, o)->Ok_0.legs;
    let b = swept(g, full, ends, n, start_node, end_node, o)->Ok_0.legs;
    if k < n {
        lemma_swept_before(g, full, ends, k, n - 1, start_node, end_node, o);
        let c = swept(g, full, ends, n - 1, start_node, end_node, o)->Ok_0.legs;
        assert(b.take(a.len() as int) =~= c.take(a.len() as int));
    } else {
        assert(b.take(a.len() as int) =~= a);
    }
}

/// Every waypoint gets a leg, and so a point, of its own: after any number of stretches
/// the next leg starts where they end.
pub proof fn law_waypoints_start_legs(
    g: GraphModel,
    full: Seq<SegmentId>,
    ends: Seq<int>,
    k: int,
    start_node: NodeId,
    end_node: NodeId,
    o: LineOracles,
)
    requires
        0 <= k < ends.len(),
        starts_at_stretches(o.sweep),
        swept(g, full, ends, ends.len() as int, start_node, end_node, o) is Ok,
    ensures
        swept(g, full, ends, k, start_node, end_node, o) is Ok,
        ({
            let s = swept(g, full, ends, k, start_node, end_node, o)->Ok_0;
            let all = swept(g, full, ends, ends.len() as int, start_node, end_node, o)->Ok_0.legs;
            s.legs.len() < all.len() && all[s.legs.len() as int].start_node == s.node
        }),
{
    let n = ends.len() as int;
    lemma_swept_before(g, full, ends, k, n, start_node, end_node, o);
    lemma_swept_before(g, full, ends, k + 1, n, start_node, end_node, o);
    let s = swept(g, full, ends, k, start_node, end_node, o)->Ok_0;
    let t = swept(g, full, ends, k + 1, start_node, end_node, o)->Ok_0;
    let all = swept(g, full, ends, n, start_node, end_node, o)->Ok_0.legs;
    assert(t.legs[s.legs.len() as int].start_node == s.node);
    assert(all.take(t.legs.len() as int)[s.legs.len() as int] == all[s.legs.len() as int]);
}

} // verus!
