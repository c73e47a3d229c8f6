//! Routes through waypoints.
use vstd::prelude::*;

use crate::diagnose::paths_by;
use crate::expansion::{no_turns, turns_by, Turn};
use crate::graph::{Graph, GraphModel, NodeId, SegmentId, TileKey, NO_PRIOR_SEG};
use crate::oracle::{lemma_answer, settled};
use crate::path::{any_road, query, PathModel, PathOutcome, PathQuery, PathResult};
use crate::text::{decimal, decimal_text};
use crate::waypoint::{
    boundary_candidates, candidates, near_by, projections_by, snap_point, snapped,
    BoundaryCandidate, Place, Projecting, Projection, Waypoint,
};

verus! {

/// Why no route was found. Where one connection is to blame, its ends are given, fit
/// for `diagnose_connection`.
#[derive(Debug)]
pub struct RouteFailure {
    pub message: String,
    pub from_node: Option<u32>,
    pub to_node: Option<u32>,
    pub from_segment_id: Option<u32>,
}

/// What a `RouteFailure` says.
#[verifier::ext_equal]
pub struct FailureModel {
    pub message: Seq<char>,
    pub from_node: Option<u32>,
    pub to_node: Option<u32>,
    pub from_segment_id: Option<u32>,
}

impl View for RouteFailure {
    type V = FailureModel;

    open spec fn view(&self) -> FailureModel {
        FailureModel {
            message: self.message@,
            from_node: self.from_node,
            to_node: self.to_node,
            from_segment_id: self.from_segment_id,
        }
    }
}

/// A failure without a connection to blame.
pub open spec fn plain_failure(message: Seq<char>) -> FailureModel {
    FailureModel { message, from_node: None, to_node: None, from_segment_id: None }
}

/// A failure of the connection from one node, by way of a segment, to another.
pub open spec fn leg_failure(
    message: Seq<char>,
    from_node: NodeId,
    from_seg: SegmentId,
    to_node: NodeId,
) -> FailureModel {
    FailureModel {
        message,
        from_node: Some(from_node.0),
        to_node: Some(to_node.0),
        from_segment_id: if from_seg.0 == NO_PRIOR_SEG {
            None
        } else {
            Some(from_seg.0)
        },
    }
}

impl RouteFailure {
    /// A failure without a connection to blame.
    pub fn plain(message: String) -> (f: RouteFailure)
        ensures
            f@ == plain_failure(message@),
    {
        RouteFailure { message, from_node: None, to_node: None, from_segment_id: None }
    }

    /// A failure of the connection from one node, by way of a segment, to another.
    pub fn leg(message: String, from_node: NodeId, from_seg: SegmentId, to_node: NodeId) -> (f:
        RouteFailure)
        ensures
            f@ == leg_failure(message@, from_node, from_seg, to_node),
    {
        RouteFailure {
            message,
            from_node: Some(from_node.0),
            to_node: Some(to_node.0),
            from_segment_id: if from_seg.0 == NO_PRIOR_SEG {
                None
            } else {
                Some(from_seg.0)
            },
        }
    }
}

/// The outcome of routing through waypoints.
#[derive(Debug)]
pub enum RouteOutcome {
    Found {
        path: Vec<SegmentId>,
        start_node: NodeId,
        start_offset_cm: i64,
        end_offset_cm: i64,
        length_cm: i128,
        /// How many segments of `path` lie before each inner waypoint.
        via_split_points: Vec<usize>,
        /// Where each waypoint was snapped to.
        snapped_coords: Vec<(i32, i32)>,
    },
    NeedsTile(TileKey),
    Error(RouteFailure),
}

/// What a `RouteOutcome` says.
#[verifier::ext_equal]
pub enum RouteModel {
    Found {
        path: Seq<SegmentId>,
        start_node: NodeId,
        start_offset_cm: i64,
        end_offset_cm: i64,
        length_cm: int,
        via_split_points: Seq<usize>,
        snapped_coords: Seq<(i32, i32)>,
    },
    NeedsTile(TileKey),
    Error(FailureModel),
}

impl View for RouteOutcome {
    type V = RouteModel;

    open spec fn view(&self) -> RouteModel {
        match self {
            RouteOutcome::Found {
                path,
                start_node,
                start_offset_cm,
                end_offset_cm,
                length_cm,
                via_split_points,
                snapped_coords,
            } => RouteModel::Found {
                path: path@,
                start_node: *start_node,
                start_offset_cm: *start_offset_cm,
                end_offset_cm: *end_offset_cm,
                length_cm: *length_cm as int,
                via_split_points: via_split_points@,
                snapped_coords: snapped_coords@,
            },
            RouteOutcome::NeedsTile(k) => RouteModel::NeedsTile(*k),
            RouteOutcome::Error(f) => RouteModel::Error(f@),
        }
    }
}

/// The fixed end of a leg whose other end is still to be chosen.
#[derive(Debug, Clone, Copy, PartialEq, Eq, Structural)]
pub enum FixedEnd {
    /// The leg goes from a candidate to this node.
    To(NodeId),
    /// The leg goes from this node, reached by way of the segment, to a candidate.
    From(NodeId, SegmentId),
}

/// Whether a turn is no sharper than allowed, where anything is known of it.
pub open spec fn gentle(t: Turn, max_turn: u32, turn: spec_fn(Turn) -> Option<u32>) -> bool {
    match turn(t) {
        Some(d) => d <= max_turn,
        None => true,
    }
}

/// Whether a path that comes to the continuation of a candidate by way of a segment may
/// go on to its anchor: they are one node, or the turn onto the segment between them is
/// no sharper than allowed.
pub open spec fn joins(
    before: SegmentId,
    c: BoundaryCandidate,
    max_turn: u32,
    turn: spec_fn(Turn) -> Option<u32>,
) -> bool {
    c.anchor == c.continuation || gentle(
        Turn { from_seg: before, at: c.continuation, to_seg: c.seg_id },
        max_turn,
        turn,
    )
}

/// The path, unless it may not go on to the anchor of a candidate. `before` is the segment
/// before the path.
pub open spec fn joining(
    path: PathModel,
    before: SegmentId,
    c: BoundaryCandidate,
    max_turn: u32,
    turn: spec_fn(Turn) -> Option<u32>,
) -> PathModel {
    match path {
        PathModel::Found { segments, length_cm } => if joins(
            last_or(segments, before),
            c,
            max_turn,
            turn,
        ) {
            path
        } else {
            PathModel::NoPath
        },
        _ => path,
    }
}

/// The path of a leg between a candidate and the fixed end: no segment at all where
/// the two are one node. A leg to a candidate has to be fit to go on along its segment.
pub open spec fn leg_path(
    c: BoundaryCandidate,
    end: FixedEnd,
    max_turn: u32,
    zoom: u8,
    search: spec_fn(PathQuery) -> PathModel,
    turn: spec_fn(Turn) -> Option<u32>,
) -> PathModel {
    match end {
        FixedEnd::To(target) => if c.continuation == target {
            PathModel::Found { segments: Seq::empty(), length_cm: 0 }
        } else {
            search(any_road(c.continuation, c.bias(), target, max_turn, zoom))
        },
        FixedEnd::From(source, seg) => joining(
            if source == c.continuation {
                PathModel::Found { segments: Seq::empty(), length_cm: 0 }
            } else {
                search(any_road(source, seg, c.continuation, max_turn, zoom))
            },
            seg,
            c,
            max_turn,
            turn,
        ),
    }
}

/// The best candidate so far: which one, the path of its leg, and the total of offset
/// and path.
#[verifier::ext_equal]
pub struct BestLeg {
    pub idx: int,
    pub segments: Seq<SegmentId>,
    pub length_cm: i64,
    pub total_cm: int,
}

/// The first of the best ones of the first `n` candidates that are connected, or a tile
/// that has to be loaded first.
pub open spec fn best_leg(
    cands: Seq<BoundaryCandidate>,
    n: int,
    end: FixedEnd,
    max_turn: u32,
    zoom: u8,
    search: spec_fn(PathQuery) -> PathModel,
    turn: spec_fn(Turn) -> Option<u32>,
) -> Result<Option<BestLeg>, TileKey>
    decreases n,
{
    if n <= 0 {
        Ok(None)
    } else {
        match best_leg(cands, n - 1, end, max_turn, zoom, search, turn) {
            Err(k) => Err(k),
            Ok(best) => match leg_path(cands[n - 1], end, max_turn, zoom, search, turn) {
                PathModel::NeedsTile(k) => Err(k),
                PathModel::NoPath => Ok(best),
                PathModel::Found { segments, length_cm } => {
                    let total_cm = cands[n - 1].offset_cm + length_cm;
                    if best is None || total_cm < best->Some_0.total_cm {
                        Ok(Some(BestLeg { idx: n - 1, segments, length_cm, total_cm }))
                    } else {
                        Ok(best)
                    }
                },
            },
        }
    }
}

proof fn lemma_best_leg_stops(
    cands: Seq<BoundaryCandidate>,
    k: int,
    n: int,
    end: FixedEnd,
    max_turn: u32,
    zoom: u8,
    search: spec_fn(PathQuery) -> PathModel,
    turn: spec_fn(Turn) -> Option<u32>,
)
    requires
        0 <= k <= n,
        best_leg(cands, k, end, max_turn, zoom, search, turn) is Err,
    ensures
        best_leg(cands, n, end, max_turn, zoom, search, turn) == best_leg(
            cands,
            k,
            end,
            max_turn,
            zoom,
            search,
            turn,
        ),
    decreases n - k,
{
    if k < n {
        lemma_best_leg_stops(cands, k, n - 1, end, max_turn, zoom, search, turn);
    }
}

/// A chosen candidate with the path of its leg.
struct Chosen {
    idx: usize,
    result: PathResult,
    total_cm: i128,
}

/// Strike out a path that may not go on to the anchor of a candidate.
fn join<F: Fn(Turn) -> Option<u32>>(
    path: PathOutcome,
    before: SegmentId,
    c: &BoundaryCandidate,
    max_turn_microdeg: u32,
    turn: &F,
) -> (r: PathOutcome)
    requires
        forall|t: Turn| call_requires(*turn, (t,)),
    ensures
        settled(*turn) ==> r@ == joining(path@, before, *c, max_turn_microdeg, turns_by(*turn)),
{
    match path {
        PathOutcome::Found(r) => {
            if c.anchor == c.continuation {
                return PathOutcome::Found(r);
            }
            let n: usize = r.segments.len();
            let from_seg: SegmentId = if n == 0 {
                before
            } else {
                r.segments[n - 1]
            };
            let t = Turn { from_seg, at: c.continuation, to_seg: c.seg_id };
            let d: Option<u32> = turn(t);
            proof {
                lemma_answer(*turn, t, d);
            }
            match d {
                Some(d) => if d > max_turn_microdeg {
                    PathOutcome::NoPath
                } else {
                    PathOutcome::Found(r)
                },
                None => PathOutcome::Found(r),
            }
        },
        other => other,
    }
}

/// A path without segments.
fn no_path_needed() -> (r: PathOutcome)
    ensures
        r@ == (PathModel::Found { segments: Seq::empty(), length_cm: 0 }),
{
    PathOutcome::Found(PathResult { segments: Vec::new(), length_cm: 0 })
}

/// The path of a leg between a candidate and the fixed end.
fn find_leg<P: Fn(PathQuery) -> PathOutcome, F: Fn(Turn) -> Option<u32>>(
    c: &BoundaryCandidate,
    end: FixedEnd,
    max_turn_microdeg: u32,
    zoom: u8,
    search: &P,
    turn: &F,
) -> (r: PathOutcome)
    requires
        forall|q: PathQuery| call_requires(*search, (q,)),
        forall|t: Turn| call_requires(*turn, (t,)),
    ensures
        settled(*search) && settled(*turn) ==> r@ == leg_path(
            *c,
            end,
            max_turn_microdeg,
            zoom,
            paths_by(*search),
            turns_by(*turn),
        ),
{
    let (from, seg, to): (NodeId, SegmentId, NodeId) = match end {
        FixedEnd::To(target) => (c.continuation, c.bias_seg(), target),
        FixedEnd::From(source, seg) => (source, seg, c.continuation),
    };
    let path: PathOutcome = if from == to {
        no_path_needed()
    } else {
        let q: PathQuery = query(from, seg, to, max_turn_microdeg, zoom);
        let r: PathOutcome = search(q);
        proof {
            lemma_answer(*search, q, r);
        }
        r
    };
    match end {
        FixedEnd::To(_) => path,
        FixedEnd::From(_, _) => join(path, seg, c, max_turn_microdeg, turn),
    }
}

/// A leg that starts at a candidate does not depend on what is known of turns.
proof fn lemma_no_turn_onto(
    cands: Seq<BoundaryCandidate>,
    n: int,
    target: NodeId,
    max_turn: u32,
    zoom: u8,
    search: spec_fn(PathQuery) -> PathModel,
    turn: spec_fn(Turn) -> Option<u32>,
)
    ensures
        best_leg(cands, n, FixedEnd::To(target), max_turn, zoom, search, turn) == best_leg(
            cands,
            n,
            FixedEnd::To(target),
            max_turn,
            zoom,
            search,
            no_turns(),
        ),
    decreases n,
{
    if n > 0 {
        lemma_no_turn_onto(cands, n - 1, target, max_turn, zoom, search, turn);
    }
}

fn choose_leg<P: Fn(PathQuery) -> PathOutcome, F: Fn(Turn) -> Option<u32>>(
    cands: &Vec<BoundaryCandidate>,
    end: FixedEnd,
    max_turn_microdeg: u32,
    zoom: u8,
    search: &P,
    turn: &F,
) -> (r: Result<Option<Chosen>, TileKey>)
    requires
        forall|q: PathQuery| call_requires(*search, (q,)),
        forall|t: Turn| call_requires(*turn, (t,)),
    ensures
        r matches Ok(Some(c)) ==> c.idx < cands@.len(),
        settled(*search) && settled(*turn) ==> (match r {
            Err(k) => best_leg(
                cands@,
                cands@.len() as int,
                end,
                max_turn_microdeg,
                zoom,
                paths_by(*search),
                turns_by(*turn),
            ) == Err::<Option<BestLeg>, TileKey>(k),
            Ok(None) => best_leg(
                cands@,
                cands@.len() as int,
                end,
                max_turn_microdeg,
                zoom,
                paths_by(*search),
                turns_by(*turn),
            ) == Ok::<Option<BestLeg>, TileKey>(None),
            Ok(Some(c)) => best_leg(
                cands@,
                cands@.len() as int,
                end,
                max_turn_microdeg,
                zoom,
                paths_by(*search),
                turns_by(*turn),
            ) == Ok::<Option<BestLeg>, TileKey>(Some(chosen_model(c))),
        }),
{
    let ghost ask = paths_by(*search);
    let ghost judge = turns_by(*turn);
    let mut best: Option<Chosen> = None;
    let mut i: usize = 0;
    while i < cands.len()
        invariant
            i <= cands@.len(),
            forall|q: PathQuery| call_requires(*search, (q,)),
            forall|t: Turn| call_requires(*turn, (t,)),
            ask == paths_by(*search),
            judge == turns_by(*turn),
            best matches Some(c) ==> c.idx < i,
            settled(*search) && settled(*turn) ==> best_leg(
                cands@,
                i as int,
                end,
                max_turn_microdeg,
                zoom,
                ask,
                judge,
            ) == Ok::<Option<BestLeg>, TileKey>(chosen_option(best)),
        decreases cands@.len() - i,
    {
        let c: &BoundaryCandidate = &cands[i];
        match find_leg(c, end, max_turn_microdeg, zoom, search, turn) {
            PathOutcome::Found(r) => {
                let total_cm: i128 = c.offset_cm as i128 + r.length_cm as i128;
                let better: bool = match &best {
                    Some(b) => total_cm < b.total_cm,
                    None => true,
                };
                if better {
                    best = Some(Chosen { idx: i, result: r, total_cm });
                }
            },
            PathOutcome::NeedsTile(k) => {
                proof {
                    if settled(*search) && settled(*turn) {
                        lemma_best_leg_stops(
                            cands@,
                            i + 1,
                            cands@.len() as int,
                            end,
                            max_turn_microdeg,
                            zoom,
                            ask,
                            judge,
                        );
                    }
                }
                return Err(k);
            },
            PathOutcome::NoPath => {},
        }
        i += 1;
    }
    Ok(best)
}

spec fn chosen_model(c: Chosen) -> BestLeg {
    BestLeg {
        idx: c.idx as int,
        segments: c.result.segments@,
        length_cm: c.result.length_cm,
        total_cm: c.total_cm as int,
    }
}

spec fn chosen_option(c: Option<Chosen>) -> Option<BestLeg> {
    match c {
        Some(c) => Some(chosen_model(c)),
        None => None,
    }
}

/// The message of a boundary that no candidate connects.
pub open spec fn boundary_message() -> Seq<char> {
    "no route found for a boundary waypoint"@
}

/// What is reported of a leg at a boundary: the candidate and its path, or why there
/// is none.
pub open spec fn boundary_leg(
    cands: Seq<BoundaryCandidate>,
    end: FixedEnd,
    max_turn: u32,
    zoom: u8,
    search: spec_fn(PathQuery) -> PathModel,
    turn: spec_fn(Turn) -> Option<u32>,
) -> Result<BestLeg, RouteModel> {
    match best_leg(cands, cands.len() as int, end, max_turn, zoom, search, turn) {
        Err(k) => Err(RouteModel::NeedsTile(k)),
        Ok(None) => Err(RouteModel::Error(plain_failure(boundary_message()))),
        Ok(Some(b)) => Ok(b),
    }
}

/// Whether `r` is the leg, or the reason why there is none.
pub open spec fn is_boundary_leg(
    r: Result<(usize, PathResult), RouteOutcome>,
    leg: Result<BestLeg, RouteModel>,
) -> bool {
    match r {
        Ok((idx, path)) => leg matches Ok(b) && b.idx == idx && b.segments == path.segments@
            && b.length_cm == path.length_cm,
        Err(e) => leg == Err::<BestLeg, RouteModel>(e@),
    }
}

/// Choose the candidate of the first waypoint: the one whose offset and path to
/// `target` are shortest in total.
pub fn resolve_boundary_leg<P: Fn(PathQuery) -> PathOutcome>(
    cands: &Vec<BoundaryCandidate>,
    target: NodeId,
    max_turn_microdeg: u32,
    zoom: u8,
    search: &P,
) -> (r: Result<(usize, PathResult), RouteOutcome>)
    requires
        forall|q: PathQuery| call_requires(*search, (q,)),
    ensures
        r matches Ok(found) ==> found.0 < cands@.len(),
        settled(*search) ==> is_boundary_leg(
            r,
            boundary_leg(
                cands@,
                FixedEnd::To(target),
                max_turn_microdeg,
                zoom,
                paths_by(*search),
                no_turns(),
            ),
        ),
{
    let unknown = |t: Turn| -> (r: Option<u32>)
        ensures
            r is None,
        { None };
    proof {
        lemma_no_turn_onto(
            cands@,
            cands@.len() as int,
            target,
            max_turn_microdeg,
            zoom,
            paths_by(*search),
            turns_by(unknown),
        );
    }
    match choose_leg(cands, FixedEnd::To(target), max_turn_microdeg, zoom, search, &unknown) {
        Ok(Some(c)) => Ok((c.idx, c.result)),
        Ok(None) => Err(
            RouteOutcome::Error(
                RouteFailure::plain("no route found for a boundary waypoint".to_owned()),
            ),
        ),
        Err(k) => Err(RouteOutcome::NeedsTile(k)),
    }
}

/// Choose the candidate of the last waypoint: the one whose offset and path from
/// `source` are shortest in total, among those that the path may go on to without a turn
/// sharper than `max_turn_microdeg`.
pub fn resolve_boundary_leg_from<P: Fn(PathQuery) -> PathOutcome, F: Fn(Turn) -> Option<u32>>(
    source: NodeId,
    source_bias_seg: SegmentId,
    cands: &Vec<BoundaryCandidate>,
    max_turn_microdeg: u32,
    zoom: u8,
    search: &P,
    turn: &F,
) -> (r: Result<(usize, PathResult), RouteOutcome>)
    requires
        forall|q: PathQuery| call_requires(*search, (q,)),
        forall|t: Turn| call_requires(*turn, (t,)),
    ensures
        r matches Ok(found) ==> found.0 < cands@.len(),
        settled(*search) && settled(*turn) ==> is_boundary_leg(
            r,
            boundary_leg(
                cands@,
                FixedEnd::From(source, source_bias_seg),
                max_turn_microdeg,
                zoom,
                paths_by(*search),
                turns_by(*turn),
            ),
        ),
{
    match choose_leg(
        cands,
        FixedEnd::From(source, source_bias_seg),
        max_turn_microdeg,
        zoom,
        search,
        turn,
    ) {
        Ok(Some(c)) => Ok((c.idx, c.result)),
        Ok(None) => Err(
            RouteOutcome::Error(
                RouteFailure::plain("no route found for a boundary waypoint".to_owned()),
            ),
        ),
        Err(k) => Err(RouteOutcome::NeedsTile(k)),
    }
}

/// The segment of a candidate, where the route runs along it.
pub open spec fn walked(c: BoundaryCandidate) -> Seq<SegmentId> {
    if c.anchor == c.continuation {
        Seq::empty()
    } else {
        seq![c.seg_id]
    }
}

/// The places of those of the nodes that are in the graph.
pub open spec fn coords_of(g: GraphModel, nodes: Seq<NodeId>) -> Seq<(i32, i32)>
    decreases nodes.len(),
{
    if nodes.len() == 0 {
        Seq::empty()
    } else {
        let head = coords_of(g, nodes.drop_last());
        let n = nodes.last().0;
        if g.nodes.contains_key(n) {
            head.push((g.nodes[n].lon, g.nodes[n].lat))
        } else {
            head
        }
    }
}

/// The path between two candidates, fit to go on along the segment of the second.
pub open spec fn pair_path(
    fc: BoundaryCandidate,
    lc: BoundaryCandidate,
    max_turn: u32,
    zoom: u8,
    search: spec_fn(PathQuery) -> PathModel,
    turn: spec_fn(Turn) -> Option<u32>,
) -> PathModel {
    joining(
        leg_path(fc, FixedEnd::To(lc.continuation), max_turn, zoom, search, turn),
        fc.bias(),
        lc,
        max_turn,
        turn,
    )
}

/// The best pair of candidates so far, as for a `BestLeg`.
#[verifier::ext_equal]
pub struct BestPair {
    pub first: int,
    pub last: int,
    pub segments: Seq<SegmentId>,
    pub total_cm: int,
}

/// The best pair after the pairs of first candidate `f` with the first `n` last
/// candidates, where `best` was the best one before.
pub open spec fn best_in_row(
    first: Seq<BoundaryCandidate>,
    f: int,
    last: Seq<BoundaryCandidate>,
    n: int,
    best: Option<BestPair>,
    max_turn: u32,
    zoom: u8,
    search: spec_fn(PathQuery) -> PathModel,
    turn: spec_fn(Turn) -> Option<u32>,
) -> Result<Option<BestPair>, TileKey>
    decreases n,
{
    if n <= 0 {
        Ok(best)
    } else {
        match best_in_row(first, f, last, n - 1, best, max_turn, zoom, search, turn) {
            Err(k) => Err(k),
            Ok(so_far) => match pair_path(first[f], last[n - 1], max_turn, zoom, search, turn) {
                PathModel::NeedsTile(k) => Err(k),
                PathModel::NoPath => Ok(so_far),
                PathModel::Found { segments, length_cm } => {
                    let total_cm = first[f].offset_cm + last[n - 1].offset_cm + length_cm;
                    if so_far is None || total_cm < so_far->Some_0.total_cm {
                        Ok(Some(BestPair { first: f, last: n - 1, segments, total_cm }))
                    } else {
                        Ok(so_far)
                    }
                },
            },
        }
    }
}

/// The first of the best ones of all pairs with the first `n` first candidates.
pub open spec fn best_pair(
    first: Seq<BoundaryCandidate>,
    n: int,
    last: Seq<BoundaryCandidate>,
    max_turn: u32,
    zoom: u8,
    search: spec_fn(PathQuery) -> PathModel,
    turn: spec_fn(Turn) -> Option<u32>,
) -> Result<Option<BestPair>, TileKey>
    decreases n,
{
    if n <= 0 {
        Ok(None)
    } else {
        match best_pair(first, n - 1, last, max_turn, zoom, search, turn) {
            Err(k) => Err(k),
            Ok(best) => best_in_row(
                first,
                n - 1,
                last,
                last.len() as int,
                best,
                max_turn,
                zoom,
                search,
                turn,
            ),
        }
    }
}

proof fn lemma_best_in_row_stops(
    first: Seq<BoundaryCandidate>,
    f: int,
    last: Seq<BoundaryCandidate>,
    k: int,
    n: int,
    best: Option<BestPair>,
    max_turn: u32,
    zoom: u8,
    search: spec_fn(PathQuery) -> PathModel,
    turn: spec_fn(Turn) -> Option<u32>,
)
    requires
        0 <= k <= n,
        best_in_row(first, f, last, k, best, max_turn, zoom, search, turn) is Err,
    ensures
        best_in_row(first, f, last, n, best, max_turn, zoom, search, turn) == best_in_row(
            first,
            f,
            last,
            k,
            best,
            max_turn,
            zoom,
            search,
            turn,
        ),
    decreases n - k,
{
    if k < n {
        lemma_best_in_row_stops(first, f, last, k, n - 1, best, max_turn, zoom, search, turn);
    }
}

proof fn lemma_best_pair_stops(
    first: Seq<BoundaryCandidate>,
    k: int,
    n: int,
    last: Seq<BoundaryCandidate>,
    max_turn: u32,
    zoom: u8,
    search: spec_fn(PathQuery) -> PathModel,
    turn: spec_fn(Turn) -> Option<u32>,
)
    requires
        0 <= k <= n,
        best_pair(first, k, last, max_turn, zoom, search, turn) is Err,
    ensures
        best_pair(first, n, last, max_turn, zoom, search, turn) == best_pair(
            first,
            k,
            last,
            max_turn,
            zoom,
            search,
            turn,
        ),
    decreases n - k,
{
    if k < n {
        lemma_best_pair_stops(first, k, n - 1, last, max_turn, zoom, search, turn);
    }
}

/// The message for two waypoints that no path connects.
pub open spec fn pair_message() -> Seq<char> {
    "no route found between waypoint 0 and 1"@
}

/// The route between two waypoints: of all pairs of candidates the one whose offsets
/// and path are shortest in total.
pub open spec fn direct_route(
    g: GraphModel,
    first: Seq<BoundaryCandidate>,
    last: Seq<BoundaryCandidate>,
    max_turn: u32,
    zoom: u8,
    search: spec_fn(PathQuery) -> PathModel,
    turn: spec_fn(Turn) -> Option<u32>,
) -> RouteModel {
    match best_pair(first, first.len() as int, last, max_turn, zoom, search, turn) {
        Err(k) => RouteModel::NeedsTile(k),
        Ok(None) => RouteModel::Error(plain_failure(pair_message())),
        Ok(Some(b)) => {
            let fc = first[b.first];
            let lc = last[b.last];
            RouteModel::Found {
                path: walked(fc) + b.segments + walked(lc),
                start_node: fc.anchor,
                start_offset_cm: fc.offset_cm,
                end_offset_cm: lc.offset_cm,
                length_cm: b.total_cm,
                via_split_points: Seq::empty(),
                snapped_coords: coords_of(g, seq![fc.anchor, lc.anchor]),
            }
        },
    }
}

/// A chosen pair of candidates with the path between them.
struct ChosenPair {
    first: usize,
    last: usize,
    segments: Vec<SegmentId>,
    total_cm: i128,
}

spec fn pair_option(c: Option<ChosenPair>) -> Option<BestPair> {
    match c {
        Some(c) => Some(
            BestPair {
                first: c.first as int,
                last: c.last as int,
                segments: c.segments@,
                total_cm: c.total_cm as int,
            },
        ),
        None => None,
    }
}

fn choose_pair<P: Fn(PathQuery) -> PathOutcome, F: Fn(Turn) -> Option<u32>>(
    first: &Vec<BoundaryCandidate>,
    last: &Vec<BoundaryCandidate>,
    max_turn_microdeg: u32,
    zoom: u8,
    search: &P,
    turn: &F,
) -> (r: Result<Option<ChosenPair>, TileKey>)
    requires
        forall|q: PathQuery| call_requires(*search, (q,)),
        forall|t: Turn| call_requires(*turn, (t,)),
    ensures
        r matches Ok(Some(c)) ==> c.first < first@.len() && c.last < last@.len(),
        settled(*search) && settled(*turn) ==> (match r {
            Err(k) => best_pair(
                first@,
                first@.len() as int,
                last@,
                max_turn_microdeg,
                zoom,
                paths_by(*search),
                turns_by(*turn),
            ) == Err::<Option<BestPair>, TileKey>(k),
            Ok(c) => best_pair(
                first@,
                first@.len() as int,
                last@,
                max_turn_microdeg,
                zoom,
                paths_by(*search),
                turns_by(*turn),
            ) == Ok::<Option<BestPair>, TileKey>(pair_option(c)),
        }),
{
    let ghost ask = paths_by(*search);
    let ghost judge = turns_by(*turn);
    let mut best: Option<ChosenPair> = None;
    let mut f: usize = 0;
    while f < first.len()
        invariant
            f <= first@.len(),
            forall|q: PathQuery| call_requires(*search, (q,)),
            forall|t: Turn| call_requires(*turn, (t,)),
            ask == paths_by(*search),
            judge == turns_by(*turn),
            best matches Some(c) ==> c.first < first@.len() && c.last < last@.len(),
            settled(*search) && settled(*turn) ==> best_pair(
                first@,
                f as int,
                last@,
                max_turn_microdeg,
                zoom,
                ask,
                judge,
            ) == Ok::<Option<BestPair>, TileKey>(pair_option(best)),
        decreases first@.len() - f,
    {
        let ghost before = pair_option(best);
        let mut l: usize = 0;
        while l < last.len()
            invariant
                l <= last@.len(),
                f < first@.len(),
                forall|q: PathQuery| call_requires(*search, (q,)),
                forall|t: Turn| call_requires(*turn, (t,)),
                ask == paths_by(*search),
                judge == turns_by(*turn),
                best matches Some(c) ==> c.first < first@.len() && c.last < last@.len(),
                settled(*search) && settled(*turn) ==> best_pair(
                    first@,
                    f as int,
                    last@,
                    max_turn_microdeg,
                    zoom,
                    ask,
                    judge,
                ) == Ok::<Option<BestPair>, TileKey>(before),
                settled(*search) && settled(*turn) ==> best_in_row(
                    first@,
                    f as int,
                    last@,
                    l as int,
                    before,
                    max_turn_microdeg,
                    zoom,
                    ask,
                    judge,
                ) == Ok::<Option<BestPair>, TileKey>(pair_option(best)),
            decreases last@.len() - l,
        {
            let fc: &BoundaryCandidate = &first[f];
            let lc: &BoundaryCandidate = &last[l];
            let path: PathOutcome = find_leg(
                fc,
                FixedEnd::To(lc.continuation),
                max_turn_microdeg,
                zoom,
                search,
                turn,
            );
            match join(path, fc.bias_seg(), lc, max_turn_microdeg, turn) {
                PathOutcome::Found(r) => {
                    let total_cm: i128 = fc.offset_cm as i128 + lc.offset_cm as i128
                        + r.length_cm as i128;
                    let better: bool = match &best {
                        Some(b) => total_cm < b.total_cm,
                        None => true,
                    };
                    if better {
                        best = Some(
                            ChosenPair { first: f, last: l, segments: r.segments, total_cm },
                        );
                    }
                },
                PathOutcome::NeedsTile(k) => {
                    proof {
                        if settled(*search) && settled(*turn) {
                            lemma_best_in_row_stops(
                                first@,
                                f as int,
                                last@,
                                l + 1,
                                last@.len() as int,
                                before,
                                max_turn_microdeg,
                                zoom,
                                ask,
                                judge,
                            );
                            lemma_best_pair_stops(
                                first@,
                                f + 1,
                                first@.len() as int,
                                last@,
                                max_turn_microdeg,
                                zoom,
                                ask,
                                judge,
                            );
                        }
                    }
                    return Err(k);
                },
                PathOutcome::NoPath => {},
            }
            l += 1;
        }
        f += 1;
    }
    Ok(best)
}

/// The place of the node, if the graph has it, is added to the list.
fn push_coord(graph: &Graph, node: NodeId, coords: &mut Vec<(i32, i32)>, Ghost(nodes): Ghost<
    Seq<NodeId>,
>)
    requires
        old(coords)@ == coords_of(graph@, nodes),
    ensures
        final(coords)@ == coords_of(graph@, nodes.push(node)),
{
    assert(nodes.push(node).drop_last() =~= nodes);
    match graph.node(node) {
        Some(n) => {
            coords.push((n.lon, n.lat));
        },
        None => {},
    }
}

fn route_directly<P: Fn(PathQuery) -> PathOutcome, F: Fn(Turn) -> Option<u32>>(
    graph: &Graph,
    first: &Vec<BoundaryCandidate>,
    last: &Vec<BoundaryCandidate>,
    max_turn_microdeg: u32,
    zoom: u8,
    search: &P,
    turn: &F,
) -> (r: RouteOutcome)
    requires
        forall|q: PathQuery| call_requires(*search, (q,)),
        forall|t: Turn| call_requires(*turn, (t,)),
    ensures
        settled(*search) && settled(*turn) ==> r@ == direct_route(
            graph@,
            first@,
            last@,
            max_turn_microdeg,
            zoom,
            paths_by(*search),
            turns_by(*turn),
        ),
{
    let chosen: ChosenPair = match choose_pair(first, last, max_turn_microdeg, zoom, search, turn) {
        Err(k) => {
            return RouteOutcome::NeedsTile(k);
        },
        Ok(None) => {
            return RouteOutcome::Error(
                RouteFailure::plain("no route found between waypoint 0 and 1".to_owned()),
            );
        },
        Ok(Some(c)) => c,
    };
    let fc: BoundaryCandidate = first[chosen.first];
    let lc: BoundaryCandidate = last[chosen.last];
    let ghost core = chosen.segments@;
    let mut path: Vec<SegmentId> = Vec::new();
    if fc.anchor != fc.continuation {
        path.push(fc.seg_id);
    }
    assert(path@ =~= walked(fc));
    let mut segments: Vec<SegmentId> = chosen.segments;
    path.append(&mut segments);
    if lc.anchor != lc.continuation {
        path.push(lc.seg_id);
    }
    assert(path@ =~= walked(fc) + core + walked(lc));
    let mut coords: Vec<(i32, i32)> = Vec::new();
    push_coord(graph, fc.anchor, &mut coords, Ghost(Seq::empty()));
    push_coord(graph, lc.anchor, &mut coords, Ghost(Seq::empty().push(fc.anchor)));
    assert(Seq::empty().push(fc.anchor).push(lc.anchor) =~= seq![fc.anchor, lc.anchor]);
    RouteOutcome::Found {
        path,
        start_node: fc.anchor,
        start_offset_cm: fc.offset_cm,
        end_offset_cm: lc.offset_cm,
        length_cm: chosen.total_cm,
        via_split_points: Vec::new(),
        snapped_coords: coords,
    }
}

/// The message for a waypoint without a road near it.
pub open spec fn no_road_message(i: nat) -> Seq<char> {
    "no road found within 50m of waypoint "@ + decimal(i)
        + " — load more tiles or move it closer to a road"@
}

/// The message for two inner waypoints that no path connects.
pub open spec fn no_leg_message(i: nat, j: nat) -> Seq<char> {
    "no route found between waypoint "@ + decimal(i) + " and "@ + decimal(j)
}

/// The nodes that the first `n` inner waypoints are snapped to, or the first of them
/// without a road near it.
pub open spec fn inner_nodes(
    g: GraphModel,
    ws: Seq<Waypoint>,
    n: int,
    near: spec_fn(Place) -> Seq<(SegmentId, u64)>,
    project: spec_fn(Projecting) -> Option<Projection>,
) -> Result<Seq<NodeId>, int>
    decreases n,
{
    if n <= 0 {
        Ok(Seq::empty())
    } else {
        match inner_nodes(g, ws, n - 1, near, project) {
            Err(i) => Err(i),
            Ok(nodes) => match snapped(g, ws[n].place(), ws[n].hint(), near, project) {
                Some(s) => Ok(nodes.push(s.node)),
                None => Err(n),
            },
        }
    }
}

/// A route under way: up to some inner waypoint.
#[verifier::ext_equal]
pub struct Chain {
    pub path: Seq<SegmentId>,
    /// The segment by which the waypoint was reached.
    pub current_seg: SegmentId,
    pub length_cm: int,
    pub via_split_points: Seq<usize>,
}

/// The last segment of a leg, or the one before the leg if it has none.
pub open spec fn last_or(segments: Seq<SegmentId>, before: SegmentId) -> SegmentId {
    if segments.len() == 0 {
        before
    } else {
        segments.last()
    }
}

impl Chain {
    /// The chain with another leg, which ends at an inner waypoint.
    pub open spec fn with_leg(self, segments: Seq<SegmentId>, length_cm: int) -> Chain {
        let path = self.path + segments;
        Chain {
            path,
            current_seg: last_or(segments, self.current_seg),
            length_cm: self.length_cm + length_cm,
            via_split_points: self.via_split_points.push(path.len() as usize),
        }
    }
}

/// The chain before the first leg.
pub open spec fn chain_start(c: BoundaryCandidate) -> Chain {
    Chain {
        path: walked(c),
        current_seg: c.bias(),
        length_cm: c.offset_cm as int,
        via_split_points: Seq::empty(),
    }
}

/// The chain after `n` legs between inner waypoints.
pub open spec fn chained(
    nodes: Seq<NodeId>,
    n: int,
    start: Chain,
    max_turn: u32,
    zoom: u8,
    search: spec_fn(PathQuery) -> PathModel,
) -> Result<Chain, RouteModel>
    decreases n,
{
    if n <= 0 {
        Ok(start)
    } else {
        match chained(nodes, n - 1, start, max_turn, zoom, search) {
            Err(e) => Err(e),
            Ok(c) => match search(
                any_road(nodes[n - 1], c.current_seg, nodes[n], max_turn, zoom),
            ) {
                PathModel::Found { segments, length_cm } => Ok(
                    c.with_leg(segments, length_cm as int),
                ),
                PathModel::NoPath => Err(
                    RouteModel::Error(
                        leg_failure(
                            no_leg_message(n as nat, (n + 1) as nat),
                            nodes[n - 1],
                            c.current_seg,
                            nodes[n],
                        ),
                    ),
                ),
                PathModel::NeedsTile(k) => Err(RouteModel::NeedsTile(k)),
            },
        }
    }
}

/// The route by way of inner waypoints, which are snapped to `nodes`.
pub open spec fn route_via(
    g: GraphModel,
    first: Seq<BoundaryCandidate>,
    nodes: Seq<NodeId>,
    last: Seq<BoundaryCandidate>,
    max_turn: u32,
    zoom: u8,
    search: spec_fn(PathQuery) -> PathModel,
    turn: spec_fn(Turn) -> Option<u32>,
) -> RouteModel {
    match boundary_leg(first, FixedEnd::To(nodes[0]), max_turn, zoom, search, no_turns()) {
        Err(e) => e,
        Ok(f) => {
            let fc = first[f.idx];
            let start = chain_start(fc).with_leg(f.segments, f.length_cm as int);
            match chained(nodes, nodes.len() - 1, start, max_turn, zoom, search) {
                Err(e) => e,
                Ok(c) => match boundary_leg(
                    last,
                    FixedEnd::From(nodes.last(), c.current_seg),
                    max_turn,
                    zoom,
                    search,
                    turn,
                ) {
                    Err(e) => e,
                    Ok(l) => {
                        let lc = last[l.idx];
                        RouteModel::Found {
                            path: c.path + l.segments + walked(lc),
                            start_node: fc.anchor,
                            start_offset_cm: fc.offset_cm,
                            end_offset_cm: lc.offset_cm,
                            length_cm: c.length_cm + l.length_cm + lc.offset_cm,
                            via_split_points: c.via_split_points,
                            snapped_coords: coords_of(g, seq![fc.anchor] + nodes.push(lc.anchor)),
                        }
                    },
                },
            }
        },
    }
}

/// The route through waypoints.
pub open spec fn route(
    g: GraphModel,
    ws: Seq<Waypoint>,
    max_turn: u32,
    zoom: u8,
    near: spec_fn(Place) -> Seq<(SegmentId, u64)>,
    project: spec_fn(Projecting) -> Option<Projection>,
    search: spec_fn(PathQuery) -> PathModel,
    turn: spec_fn(Turn) -> Option<u32>,
) -> RouteModel {
    if ws.len() < 2 {
        RouteModel::Error(plain_failure("need at least 2 waypoints"@))
    } else {
        match candidates(g, ws[0], near, project) {
            None => RouteModel::Error(plain_failure(no_road_message(0))),
            Some(first) => match candidates(g, ws.last(), near, project) {
                None => RouteModel::Error(
                    plain_failure(no_road_message((ws.len() - 1) as nat)),
                ),
                Some(last) => if ws.len() == 2 {
                    direct_route(g, first, last, max_turn, zoom, search, turn)
                } else {
                    match inner_nodes(g, ws, ws.len() - 2, near, project) {
                        Err(i) => RouteModel::Error(plain_failure(no_road_message(i as nat))),
                        Ok(nodes) => route_via(g, first, nodes, last, max_turn, zoom, search, turn),
                    }
                },
            },
        }
    }
}

proof fn lemma_inner_nodes_stop(
    g: GraphModel,
    ws: Seq<Waypoint>,
    k: int,
    n: int,
    near: spec_fn(Place) -> Seq<(SegmentId, u64)>,
    project: spec_fn(Projecting) -> Option<Projection>,
)
    requires
        0 <= k <= n,
        inner_nodes(g, ws, k, near, project) is Err,
    ensures
        inner_nodes(g, ws, n, near, project) == inner_nodes(g, ws, k, near, project),
    decreases n - k,
{
    if k < n {
        lemma_inner_nodes_stop(g, ws, k, n - 1, near, project);
    }
}

proof fn lemma_chained_stops(
    nodes: Seq<NodeId>,
    k: int,
    n: int,
    start: Chain,
    max_turn: u32,
    zoom: u8,
    search: spec_fn(PathQuery) -> PathModel,
)
    requires
        0 <= k <= n,
        chained(nodes, k, start, max_turn, zoom, search) is Err,
    ensures
        chained(nodes, n, start, max_turn, zoom, search) == chained(
            nodes,
            k,
            start,
            max_turn,
            zoom,
            search,
        ),
    decreases n - k,
{
    if k < n {
        lemma_chained_stops(nodes, k, n - 1, start, max_turn, zoom, search);
    }
}

fn no_road(i: usize) -> (r: RouteOutcome)
    ensures
        r@ == RouteModel::Error(plain_failure(no_road_message(i as nat))),
{
    let mut message: String = "no road found within 50m of waypoint ".to_owned();
    let number: String = decimal_text(i as u64);
    message.append(number.as_str());
    message.append(" — load more tiles or move it closer to a road");
    RouteOutcome::Error(RouteFailure::plain(message))
}

/// A route under way, as a `Chain`.
struct Progress {
    path: Vec<SegmentId>,
    current_seg: SegmentId,
    length_cm: i128,
    via_split_points: Vec<usize>,
}

impl Progress {
    spec fn chain(self) -> Chain {
        Chain {
            path: self.path@,
            current_seg: self.current_seg,
            length_cm: self.length_cm as int,
            via_split_points: self.via_split_points@,
        }
    }

    /// Add a leg, which ends at an inner waypoint.
    fn add_leg(&mut self, leg: PathResult)
        requires
            i128::MIN <= old(self).length_cm + leg.length_cm <= i128::MAX,
        ensures
            final(self).chain() == old(self).chain().with_leg(
                leg.segments@,
                leg.length_cm as int,
            ),
    {
        let mut segments: Vec<SegmentId> = leg.segments;
        let n: usize = segments.len();
        if n > 0 {
            self.current_seg = segments[n - 1];
        }
        self.path.append(&mut segments);
        self.length_cm = self.length_cm + leg.length_cm as i128;
        let reached: usize = self.path.len();
        self.via_split_points.push(reached);
    }
}

fn route_by_way_of<P: Fn(PathQuery) -> PathOutcome, F: Fn(Turn) -> Option<u32>>(
    graph: &Graph,
    first: &Vec<BoundaryCandidate>,
    nodes: &Vec<NodeId>,
    last: &Vec<BoundaryCandidate>,
    max_turn_microdeg: u32,
    zoom: u8,
    search: &P,
    turn: &F,
) -> (r: RouteOutcome)
    requires
        0 < nodes@.len() < usize::MAX - 1,
        forall|q: PathQuery| call_requires(*search, (q,)),
        forall|t: Turn| call_requires(*turn, (t,)),
        forall|i: int|
            0 <= i < first@.len() ==> -0x1_0000_0000 < (#[trigger] first@[i]).offset_cm
                < 0x1_0000_0000,
        forall|i: int|
            0 <= i < last@.len() ==> -0x1_0000_0000 < (#[trigger] last@[i]).offset_cm
                < 0x1_0000_0000,
    ensures
        settled(*search) && settled(*turn) ==> r@ == route_via(
            graph@,
            first@,
            nodes@,
            last@,
            max_turn_microdeg,
            zoom,
            paths_by(*search),
            turns_by(*turn),
        ),
{
    let ghost ask = paths_by(*search);
    let ghost judge = turns_by(*turn);
    let (fi, first_leg): (usize, PathResult) = match resolve_boundary_leg(
        first,
        nodes[0],
        max_turn_microdeg,
        zoom,
        search,
    ) {
        Ok(v) => v,
        Err(e) => {
            return e;
        },
    };
    let fc: BoundaryCandidate = first[fi];
    let mut path: Vec<SegmentId> = Vec::new();
    if fc.anchor != fc.continuation {
        path.push(fc.seg_id);
    }
    assert(path@ =~= walked(fc));
    let mut so_far = Progress {
        path,
        current_seg: fc.bias_seg(),
        length_cm: fc.offset_cm as i128,
        via_split_points: Vec::new(),
    };
    assert(so_far.chain() =~= chain_start(fc));
    so_far.add_leg(first_leg);
    let ghost start = so_far.chain();
    let count: usize = nodes.len();
    let mut i: usize = 0;
    while i < count - 1
        invariant
            i < count,
            count == nodes@.len(),
            count < usize::MAX - 1,
            forall|q: PathQuery| call_requires(*search, (q,)),
            forall|t: Turn| call_requires(*turn, (t,)),
            ask == paths_by(*search),
            judge == turns_by(*turn),
            settled(*search) && settled(*turn) ==> chained(
                nodes@,
                i as int,
                start,
                max_turn_microdeg,
                zoom,
                ask,
            ) == Ok::<Chain, RouteModel>(so_far.chain()),
            -0x1_0000_0000 - 0x8000_0000_0000_0000 * (i + 1) <= so_far.length_cm
                <= 0x1_0000_0000 + 0x8000_0000_0000_0000 * (i + 1),
            settled(*search) && settled(*turn) ==> (match chained(
                nodes@,
                count - 1,
                start,
                max_turn_microdeg,
                zoom,
                ask,
            ) {
                Err(e) => route_via(
                    graph@,
                    first@,
                    nodes@,
                    last@,
                    max_turn_microdeg,
                    zoom,
                    ask,
                    judge,
                ) == e,
                Ok(c) => true,
            }),
        decreases count - i,
    {
        let q: PathQuery = query(
            nodes[i],
            so_far.current_seg,
            nodes[i + 1],
            max_turn_microdeg,
            zoom,
        );
        let outcome: PathOutcome = search(q);
        proof {
            lemma_answer(*search, q, outcome);
            if settled(*search) && settled(*turn) && !(outcome is Found) {
                lemma_chained_stops(
                    nodes@,
                    i + 1,
                    count - 1,
                    start,
                    max_turn_microdeg,
                    zoom,
                    ask,
                );
            }
        }
        match outcome {
            PathOutcome::Found(r) => {
                so_far.add_leg(r);
            },
            PathOutcome::NoPath => {
                let mut message: String = "no route found between waypoint ".to_owned();
                let a: String = decimal_text((i + 1) as u64);
                message.append(a.as_str());
                message.append(" and ");
                let b: String = decimal_text((i + 2) as u64);
                message.append(b.as_str());
                return RouteOutcome::Error(
                    RouteFailure::leg(message, nodes[i], so_far.current_seg, nodes[i + 1]),
                );
            },
            PathOutcome::NeedsTile(k) => {
                return RouteOutcome::NeedsTile(k);
            },
        }
        i += 1;
    }
    let (li, last_leg): (usize, PathResult) = match resolve_boundary_leg_from(
        nodes[count - 1],
        so_far.current_seg,
        last,
        max_turn_microdeg,
        zoom,
        search,
        turn,
    ) {
        Ok(v) => v,
        Err(e) => {
            return e;
        },
    };
    let lc: BoundaryCandidate = last[li];
    let length_cm: i128 = so_far.length_cm + last_leg.length_cm as i128 + lc.offset_cm as i128;
    let ghost c = so_far.chain();
    let ghost leg = last_leg.segments@;
    let Progress { path, current_seg: _, length_cm: _, via_split_points } = so_far;
    let mut path: Vec<SegmentId> = path;
    let mut segments: Vec<SegmentId> = last_leg.segments;
    path.append(&mut segments);
    if lc.anchor != lc.continuation {
        path.push(lc.seg_id);
    }
    assert(path@ =~= c.path + leg + walked(lc));
    let mut coords: Vec<(i32, i32)> = Vec::new();
    push_coord(graph, fc.anchor, &mut coords, Ghost(Seq::empty()));
    let ghost mut shown: Seq<NodeId> = Seq::empty().push(fc.anchor);
    assert(shown =~= seq![fc.anchor] + nodes@.take(0));
    let mut j: usize = 0;
    while j < count
        invariant
            j <= count,
            count == nodes@.len(),
            shown == seq![fc.anchor] + nodes@.take(j as int),
            coords@ == coords_of(graph@, shown),
        decreases count - j,
    {
        push_coord(graph, nodes[j], &mut coords, Ghost(shown));
        proof {
            shown = shown.push(nodes@[j as int]);
            assert(shown =~= seq![fc.anchor] + nodes@.take(j + 1));
        }
        j += 1;
    }
    push_coord(graph, lc.anchor, &mut coords, Ghost(shown));
    assert(shown.push(lc.anchor) =~= seq![fc.anchor] + nodes@.push(lc.anchor));
    RouteOutcome::Found {
        path,
        start_node: fc.anchor,
        start_offset_cm: fc.offset_cm,
        end_offset_cm: lc.offset_cm,
        length_cm,
        via_split_points,
        snapped_coords: coords,
    }
}

/// Snap the waypoints and chain the shortest paths between them.
///
/// The first and the last waypoint carry offsets. Where one lies within a segment, its
/// offset has to be measured from the end that the path does start or finish at, which
/// need not be the nearer one: both are tried, and the shorter route in total wins. The
/// waypoints in between carry no offset, so they are snapped by `snap_point`.
///
/// `near` tells the segments near a place with their distances, `project` the nearest
/// point of a segment, `search` the shortest path, and `turn` how sharp a turn is. The
/// search is asked for paths without a turn sharper than `max_turn_microdeg`, and no such
/// turn is taken onto the segment of the last waypoint either.
pub fn route_waypoints<
    N: Fn(Place) -> Vec<(SegmentId, u64)>,
    J: Fn(Projecting) -> Option<Projection>,
    P: Fn(PathQuery) -> PathOutcome,
    F: Fn(Turn) -> Option<u32>,
>(
    graph: &Graph,
    waypoints: &[Waypoint],
    max_turn_microdeg: u32,
    zoom: u8,
    near: &N,
    project: &J,
    search: &P,
    turn: &F,
) -> (r: RouteOutcome)
    requires
        graph@.wf(),
        forall|p: Place| call_requires(*near, (p,)),
        forall|q: Projecting| call_requires(*project, (q,)),
        forall|q: PathQuery| call_requires(*search, (q,)),
        forall|t: Turn| call_requires(*turn, (t,)),
    ensures
        settled(*near) && settled(*project) && settled(*search) && settled(*turn) ==> r@ == route(
            graph@,
            waypoints@,
            max_turn_microdeg,
            zoom,
            near_by(*near),
            projections_by(*project),
            paths_by(*search),
            turns_by(*turn),
        ),
        waypoints@.len() < 2 ==> r@ == RouteModel::Error(
            plain_failure("need at least 2 waypoints"@),
        ),
{
    let count: usize = waypoints.len();
    if count < 2 {
        return RouteOutcome::Error(RouteFailure::plain("need at least 2 waypoints".to_owned()));
    }
    let first: Vec<BoundaryCandidate> = match boundary_candidates(
        graph,
        &waypoints[0],
        near,
        project,
    ) {
        Some(c) => c,
        None => {
            return no_road(0);
        },
    };
    let last: Vec<BoundaryCandidate> = match boundary_candidates(
        graph,
        &waypoints[count - 1],
        near,
        project,
    ) {
        Some(c) => c,
        None => {
            return no_road(count - 1);
        },
    };
    if count == 2 {
        return route_directly(graph, &first, &last, max_turn_microdeg, zoom, search, turn);
    }
    let mut nodes: Vec<NodeId> = Vec::new();
    let mut i: usize = 1;
    while i < count - 1
        invariant
            1 <= i < count,
            count == waypoints@.len(),
            nodes@.len() == i - 1,
            forall|p: Place| call_requires(*near, (p,)),
            forall|q: Projecting| call_requires(*project, (q,)),
            settled(*near) && settled(*project) ==> inner_nodes(
                graph@,
                waypoints@,
                i - 1,
                near_by(*near),
                projections_by(*project),
            ) == Ok::<Seq<NodeId>, int>(nodes@),
            settled(*near) && settled(*project) && settled(*search) && settled(*turn) ==> (match
            inner_nodes(
                graph@,
                waypoints@,
                count - 2,
                near_by(*near),
                projections_by(*project),
            ) {
                Err(n) => route(
                    graph@,
                    waypoints@,
                    max_turn_microdeg,
                    zoom,
                    near_by(*near),
                    projections_by(*project),
                    paths_by(*search),
                    turns_by(*turn),
                ) == RouteModel::Error(plain_failure(no_road_message(n as nat))),
                Ok(_) => true,
            }),
        decreases count - i,
    {
        let w: Waypoint = waypoints[i];
        let place = Place { lon: w.lon, lat: w.lat };
        match snap_point(graph, place, w.snap_hint(), near, project) {
            Some(s) => {
                nodes.push(s.node);
            },
            None => {
                proof {
                    if settled(*near) && settled(*project) {
                        lemma_inner_nodes_stop(
                            graph@,
                            waypoints@,
                            i as int,
                            count - 2,
                            near_by(*near),
                            projections_by(*project),
                        );
                    }
                }
                return no_road(i);
            },
        }
        i += 1;
    }
    route_by_way_of(graph, &first, &nodes, &last, max_turn_microdeg, zoom, search, turn)
}

/// Whether every path that the search finds leads from where it was asked to start to
/// where it was asked to end.
pub open spec fn finds_paths(g: GraphModel, search: spec_fn(PathQuery) -> PathModel) -> bool {
    forall|q: PathQuery|
        (match #[trigger] search(q) {
            PathModel::Found { segments, length_cm } => g.walk_end(q.from_node, segments) == Some(
                q.to_node,
            ),
            _ => true,
        })
}

/// Whether the segment of a candidate leads from the anchor to the continuation, where
/// the two differ.
pub open spec fn anchors_hold(g: GraphModel, cands: Seq<BoundaryCandidate>) -> bool {
    forall|i: int|
        0 <= i < cands.len() && (#[trigger] cands[i]).anchor != cands[i].continuation
            ==> g.other_end(cands[i].seg_id, cands[i].anchor) == Some(cands[i].continuation)
            && g.other_end(cands[i].seg_id, cands[i].continuation) == Some(cands[i].anchor)
}

proof fn lemma_walk_on(g: GraphModel, n: NodeId, a: Seq<SegmentId>, b: Seq<SegmentId>)
    ensures
        g.walk_end(n, a + b) == (match g.walk_end(n, a) {
            Some(m) => g.walk_end(m, b),
            None => None,
        }),
    decreases b.len(),
{
    if b.len() == 0 {
        assert(a + b =~= a);
    } else {
        assert((a + b).drop_last() =~= a + b.drop_last());
        lemma_walk_on(g, n, a, b.drop_last());
    }
}

proof fn lemma_walked(g: GraphModel, cands: Seq<BoundaryCandidate>, i: int)
    requires
        anchors_hold(g, cands),
        0 <= i < cands.len(),
    ensures
        g.walk_end(cands[i].anchor, walked(cands[i])) == Some(cands[i].continuation),
        g.walk_end(cands[i].continuation, walked(cands[i])) == Some(cands[i].anchor),
{
    let c = cands[i];
    reveal_with_fuel(GraphModel::walk_end, 2);
    if c.anchor != c.continuation {
        assert(seq![c.seg_id].drop_last() =~= Seq::empty());
    }
}

proof fn lemma_candidates_anchor(
    g: GraphModel,
    w: Waypoint,
    near: spec_fn(Place) -> Seq<(SegmentId, u64)>,
    project: spec_fn(Projecting) -> Option<Projection>,
)
    requires
        g.wf(),
    ensures
        candidates(g, w, near, project) matches Some(v) ==> anchors_hold(g, v) && 1 <= v.len() <= 2,
{
}

proof fn lemma_best_leg(
    g: GraphModel,
    cands: Seq<BoundaryCandidate>,
    n: int,
    end: FixedEnd,
    max_turn: u32,
    zoom: u8,
    search: spec_fn(PathQuery) -> PathModel,
    turn: spec_fn(Turn) -> Option<u32>,
)
    requires
        finds_paths(g, search),
        n <= cands.len(),
    ensures
        best_leg(cands, n, end, max_turn, zoom, search, turn) matches Ok(Some(b)) ==> {
            &&& 0 <= b.idx < n
            &&& b.total_cm == cands[b.idx].offset_cm + b.length_cm
            &&& (match end {
                FixedEnd::To(t) => g.walk_end(cands[b.idx].continuation, b.segments) == Some(t),
                FixedEnd::From(s, _) => g.walk_end(s, b.segments) == Some(
                    cands[b.idx].continuation,
                ),
            })
        },
    decreases n,
{
    if n > 0 {
        lemma_best_leg(g, cands, n - 1, end, max_turn, zoom, search, turn);
    }
}

/// Of the candidates at a boundary that are connected, none is shorter in total than the
/// chosen one, and those before it are longer.
pub proof fn law_boundary_leg_is_shortest(
    cands: Seq<BoundaryCandidate>,
    n: int,
    end: FixedEnd,
    max_turn: u32,
    zoom: u8,
    search: spec_fn(PathQuery) -> PathModel,
    turn: spec_fn(Turn) -> Option<u32>,
    i: int,
)
    requires
        0 <= i < n <= cands.len(),
        best_leg(cands, n, end, max_turn, zoom, search, turn) is Ok,
        leg_path(cands[i], end, max_turn, zoom, search, turn) is Found,
    ensures
        ({
            let total_cm = cands[i].offset_cm + leg_path(
                cands[i],
                end,
                max_turn,
                zoom,
                search,
                turn,
            )->Found_length_cm;
            match best_leg(cands, n, end, max_turn, zoom, search, turn) {
                Ok(Some(b)) => b.total_cm <= total_cm && (i < b.idx ==> b.total_cm < total_cm),
                _ => false,
            }
        }),
    decreases n,
{
    if i < n - 1 {
        law_boundary_leg_is_shortest(cands, n - 1, end, max_turn, zoom, search, turn, i);
    } else {
        lemma_best_leg_in_range(cands, n - 1, end, max_turn, zoom, search, turn);
    }
}

/// Of the pairs of candidates that are connected, none is shorter in total than the
/// chosen one.
pub proof fn law_direct_route_is_shortest(
    first: Seq<BoundaryCandidate>,
    n: int,
    last: Seq<BoundaryCandidate>,
    max_turn: u32,
    zoom: u8,
    search: spec_fn(PathQuery) -> PathModel,
    turn: spec_fn(Turn) -> Option<u32>,
    f: int,
    l: int,
)
    requires
        0 <= f < n <= first.len(),
        0 <= l < last.len(),
        best_pair(first, n, last, max_turn, zoom, search, turn) is Ok,
        pair_path(first[f], last[l], max_turn, zoom, search, turn) is Found,
    ensures
        (match best_pair(first, n, last, max_turn, zoom, search, turn) {
            Ok(Some(b)) => b.total_cm <= first[f].offset_cm + last[l].offset_cm + pair_path(
                first[f],
                last[l],
                max_turn,
                zoom,
                search,
                turn,
            )->Found_length_cm,
            _ => false,
        }),
    decreases n,
{
    let m = last.len() as int;
    let before = best_pair(first, n - 1, last, max_turn, zoom, search, turn);
    if f < n - 1 {
        law_direct_route_is_shortest(first, n - 1, last, max_turn, zoom, search, turn, f, l);
        lemma_row_improves(first, n - 1, last, m, before->Ok_0, max_turn, zoom, search, turn);
    } else {
        lemma_row_is_shortest(first, f, last, m, before->Ok_0, max_turn, zoom, search, turn, l);
    }
}

proof fn lemma_row_improves(
    first: Seq<BoundaryCandidate>,
    f: int,
    last: Seq<BoundaryCandidate>,
    n: int,
    best: Option<BestPair>,
    max_turn: u32,
    zoom: u8,
    search: spec_fn(PathQuery) -> PathModel,
    turn: spec_fn(Turn) -> Option<u32>,
)
    requires
        best_in_row(first, f, last, n, best, max_turn, zoom, search, turn) is Ok,
        best is Some,
    ensures
        best_in_row(first, f, last, n, best, max_turn, zoom, search, turn)->Ok_0 is Some,
        best_in_row(first, f, last, n, best, max_turn, zoom, search, turn)->Ok_0->Some_0.total_cm
            <= best->Some_0.total_cm,
    decreases n,
{
    if n > 0 {
        lemma_row_improves(first, f, last, n - 1, best, max_turn, zoom, search, turn);
    }
}

proof fn lemma_row_is_shortest(
    first: Seq<BoundaryCandidate>,
    f: int,
    last: Seq<BoundaryCandidate>,
    n: int,
    best: Option<BestPair>,
    max_turn: u32,
    zoom: u8,
    search: spec_fn(PathQuery) -> PathModel,
    turn: spec_fn(Turn) -> Option<u32>,
    l: int,
)
    requires
        best_in_row(first, f, last, n, best, max_turn, zoom, search, turn) is Ok,
        0 <= l < n,
        pair_path(first[f], last[l], max_turn, zoom, search, turn) is Found,
    ensures
        best_in_row(first, f, last, n, best, max_turn, zoom, search, turn)->Ok_0 is Some,
        best_in_row(first, f, last, n, best, max_turn, zoom, search, turn)->Ok_0->Some_0.total_cm
            <= first[f].offset_cm + last[l].offset_cm + pair_path(
            first[f],
            last[l],
            max_turn,
            zoom,
            search,
            turn,
        )->Found_length_cm,
    decreases n,
{
    if l < n - 1 {
        lemma_row_is_shortest(first, f, last, n - 1, best, max_turn, zoom, search, turn, l);
    }
}

proof fn lemma_best_leg_in_range(
    cands: Seq<BoundaryCandidate>,
    n: int,
    end: FixedEnd,
    max_turn: u32,
    zoom: u8,
    search: spec_fn(PathQuery) -> PathModel,
    turn: spec_fn(Turn) -> Option<u32>,
)
    ensures
        best_leg(cands, n, end, max_turn, zoom, search, turn) matches Ok(Some(b)) ==> 0 <= b.idx < n,
    decreases n,
{
    if n > 0 {
        lemma_best_leg_in_range(cands, n - 1, end, max_turn, zoom, search, turn);
    }
}

proof fn lemma_best_in_row(
    g: GraphModel,
    first: Seq<BoundaryCandidate>,
    f: int,
    last: Seq<BoundaryCandidate>,
    n: int,
    best: Option<BestPair>,
    max_turn: u32,
    zoom: u8,
    search: spec_fn(PathQuery) -> PathModel,
    turn: spec_fn(Turn) -> Option<u32>,
)
    requires
        finds_paths(g, search),
        0 <= f < first.len(),
        n <= last.len(),
        best matches Some(b) ==> pair_connects(g, first, last, b),
    ensures
        best_in_row(first, f, last, n, best, max_turn, zoom, search, turn) matches Ok(Some(b))
            ==> pair_connects(g, first, last, b),
    decreases n,
{
    if n > 0 {
        lemma_best_in_row(g, first, f, last, n - 1, best, max_turn, zoom, search, turn);
    }
}

spec fn pair_connects(
    g: GraphModel,
    first: Seq<BoundaryCandidate>,
    last: Seq<BoundaryCandidate>,
    b: BestPair,
) -> bool {
    &&& 0 <= b.first < first.len()
    &&& 0 <= b.last < last.len()
    &&& g.walk_end(first[b.first].continuation, b.segments) == Some(last[b.last].continuation)
}

proof fn lemma_best_pair(
    g: GraphModel,
    first: Seq<BoundaryCandidate>,
    n: int,
    last: Seq<BoundaryCandidate>,
    max_turn: u32,
    zoom: u8,
    search: spec_fn(PathQuery) -> PathModel,
    turn: spec_fn(Turn) -> Option<u32>,
)
    requires
        finds_paths(g, search),
        n <= first.len(),
    ensures
        best_pair(first, n, last, max_turn, zoom, search, turn) matches Ok(Some(b)) ==> pair_connects(
            g,
            first,
            last,
            b,
        ),
    decreases n,
{
    if n > 0 {
        lemma_best_pair(g, first, n - 1, last, max_turn, zoom, search, turn);
        match best_pair(first, n - 1, last, max_turn, zoom, search, turn) {
            Ok(best) => {
                lemma_best_in_row(
                    g,
                    first,
                    n - 1,
                    last,
                    last.len() as int,
                    best,
                    max_turn,
                    zoom,
                    search,
                    turn,
                );
            },
            Err(_) => {},
        }
    }
}

/// What holds of a route under way: it leads from `from` to the last node, and by way of
/// each node after as many segments as its split point says.
spec fn leads(g: GraphModel, c: Chain, from: NodeId, nodes: Seq<NodeId>) -> bool {
    &&& c.via_split_points.len() == nodes.len() > 0
    &&& g.walk_end(from, c.path) == Some(nodes.last())
    &&& forall|i: int|
        0 <= i < nodes.len() ==> #[trigger] c.via_split_points[i] <= c.path.len() && g.walk_end(
            from,
            c.path.take(c.via_split_points[i] as int),
        ) == Some(nodes[i])
    &&& forall|i: int, j: int|
        0 <= i <= j < nodes.len() ==> #[trigger] c.via_split_points[i]
            <= #[trigger] c.via_split_points[j]
}

proof fn lemma_with_leg(
    g: GraphModel,
    c: Chain,
    from: NodeId,
    nodes: Seq<NodeId>,
    at: NodeId,
    segments: Seq<SegmentId>,
    length_cm: int,
    to: NodeId,
)
    requires
        nodes.len() == 0 ==> c.via_split_points.len() == 0,
        nodes.len() > 0 ==> leads(g, c, from, nodes),
        g.walk_end(from, c.path) == Some(at),
        g.walk_end(at, segments) == Some(to),
        c.path.len() + segments.len() <= usize::MAX,
    ensures
        leads(g, c.with_leg(segments, length_cm), from, nodes.push(to)),
{
    let d = c.with_leg(segments, length_cm);
    lemma_walk_on(g, from, c.path, segments);
    assert forall|i: int| 0 <= i < nodes.push(to).len() implies #[trigger] d.via_split_points[i]
        <= d.path.len() && g.walk_end(from, d.path.take(d.via_split_points[i] as int)) == Some(
        nodes.push(to)[i],
    ) by {
        if i < nodes.len() {
            assert(d.via_split_points[i] == c.via_split_points[i]);
            assert(d.path.take(d.via_split_points[i] as int) =~= c.path.take(
                c.via_split_points[i] as int,
            ));
        } else {
            assert(d.path.take(d.path.len() as int) =~= d.path);
        }
    }
}

proof fn lemma_chained_grows(
    nodes: Seq<NodeId>,
    k: int,
    n: int,
    start: Chain,
    max_turn: u32,
    zoom: u8,
    search: spec_fn(PathQuery) -> PathModel,
)
    requires
        0 <= k <= n,
        chained(nodes, n, start, max_turn, zoom, search) is Ok,
    ensures
        chained(nodes, k, start, max_turn, zoom, search) is Ok,
        chained(nodes, k, start, max_turn, zoom, search)->Ok_0.path.len() <= chained(
            nodes,
            n,
            start,
            max_turn,
            zoom,
            search,
        )->Ok_0.path.len(),
    decreases n - k,
{
    if k < n {
        lemma_chained_grows(nodes, k, n - 1, start, max_turn, zoom, search);
    }
}

proof fn lemma_chained_leads(
    g: GraphModel,
    from: NodeId,
    nodes: Seq<NodeId>,
    n: int,
    start: Chain,
    max_turn: u32,
    zoom: u8,
    search: spec_fn(PathQuery) -> PathModel,
)
    requires
        finds_paths(g, search),
        0 <= n < nodes.len(),
        leads(g, start, from, nodes.take(1)),
        chained(nodes, n, start, max_turn, zoom, search) is Ok,
        chained(nodes, n, start, max_turn, zoom, search)->Ok_0.path.len() <= usize::MAX,
    ensures
        leads(
            g,
            chained(nodes, n, start, max_turn, zoom, search)->Ok_0,
            from,
            nodes.take(n + 1),
        ),
    decreases n,
{
    if n > 0 {
        lemma_chained_grows(nodes, n - 1, n, start, max_turn, zoom, search);
        lemma_chained_leads(g, from, nodes, n - 1, start, max_turn, zoom, search);
        let c = chained(nodes, n - 1, start, max_turn, zoom, search)->Ok_0;
        let q = any_road(nodes[n - 1], c.current_seg, nodes[n], max_turn, zoom);
        match search(q) {
            PathModel::Found { segments, length_cm } => {
                assert(nodes.take(n).last() == nodes[n - 1]);
                lemma_with_leg(
                    g,
                    c,
                    from,
                    nodes.take(n),
                    nodes[n - 1],
                    segments,
                    length_cm as int,
                    nodes[n],
                );
                assert(nodes.take(n).push(nodes[n]) =~= nodes.take(n + 1));
            },
            _ => {},
        }
    }
}

proof fn lemma_inner_nodes_count(
    g: GraphModel,
    ws: Seq<Waypoint>,
    n: int,
    near: spec_fn(Place) -> Seq<(SegmentId, u64)>,
    project: spec_fn(Projecting) -> Option<Projection>,
)
    ensures
        inner_nodes(g, ws, n, near, project) matches Ok(v) ==> v.len() == (if n < 0 {
            0
        } else {
            n
        }),
    decreases n,
{
    if n > 0 {
        lemma_inner_nodes_count(g, ws, n - 1, near, project);
    }
}

/// A route is one connected path from its start node. There is a split point for each
/// inner waypoint, in their order: the path comes by the node that the waypoint is
/// snapped to after that many segments.
pub proof fn law_routes_are_connected(
    g: GraphModel,
    ws: Seq<Waypoint>,
    max_turn: u32,
    zoom: u8,
    near: spec_fn(Place) -> Seq<(SegmentId, u64)>,
    project: spec_fn(Projecting) -> Option<Projection>,
    search: spec_fn(PathQuery) -> PathModel,
    turn: spec_fn(Turn) -> Option<u32>,
)
    requires
        g.wf(),
        finds_paths(g, search),
    ensures
        (match route(g, ws, max_turn, zoom, near, project, search, turn) {
            RouteModel::Found { path, start_node, via_split_points, .. } => path.len() <= usize::MAX
                ==> {
                &&& g.walk_end(start_node, path) is Some
                &&& via_split_points.len() == ws.len() - 2
                &&& forall|i: int|
                    0 <= i < via_split_points.len() ==> #[trigger] via_split_points[i]
                        <= path.len() && g.walk_end(
                        start_node,
                        path.take(via_split_points[i] as int),
                    ) == Some(
                        snapped(
                            g,
                            ws[i + 1].place(),
                            ws[i + 1].hint(),
                            near,
                            project,
                        )->Some_0.node,
                    )
                &&& forall|i: int, j: int|
                    0 <= i <= j < via_split_points.len() ==> #[trigger] via_split_points[i]
                        <= #[trigger] via_split_points[j]
            },
            _ => true,
        }),
{
    let r = route(g, ws, max_turn, zoom, near, project, search, turn);
    if r is Found && r->path.len() <= usize::MAX {
        let first = candidates(g, ws[0], near, project)->Some_0;
        let last = candidates(g, ws.last(), near, project)->Some_0;
        lemma_candidates_anchor(g, ws[0], near, project);
        lemma_candidates_anchor(g, ws.last(), near, project);
        if ws.len() == 2 {
            lemma_best_pair(g, first, first.len() as int, last, max_turn, zoom, search, turn);
            let b = best_pair(
                first,
                first.len() as int,
                last,
                max_turn,
                zoom,
                search,
                turn,
            )->Ok_0->Some_0;
            lemma_walked(g, first, b.first);
            lemma_walked(g, last, b.last);
            lemma_walk_on(g, first[b.first].anchor, walked(first[b.first]), b.segments);
            lemma_walk_on(
                g,
                first[b.first].anchor,
                walked(first[b.first]) + b.segments,
                walked(last[b.last]),
            );
        } else {
            let nodes = inner_nodes(g, ws, ws.len() - 2, near, project)->Ok_0;
            lemma_inner_nodes_count(g, ws, ws.len() - 2, near, project);
            assert forall|i: int| 0 <= i < nodes.len() implies nodes[i] == snapped(
                g,
                (#[trigger] ws[i + 1]).place(),
                ws[i + 1].hint(),
                near,
                project,
            )->Some_0.node by {
                lemma_inner_node(g, ws, ws.len() - 2, i, near, project);
            }
            lemma_route_via_leads(g, first, nodes, last, max_turn, zoom, search, turn);
        }
    }
}

proof fn lemma_chained_fails(
    nodes: Seq<NodeId>,
    n: int,
    start: Chain,
    max_turn: u32,
    zoom: u8,
    search: spec_fn(PathQuery) -> PathModel,
)
    ensures
        chained(nodes, n, start, max_turn, zoom, search) matches Err(e) ==> !(e is Found),
    decreases n,
{
    if n > 0 {
        lemma_chained_fails(nodes, n - 1, start, max_turn, zoom, search);
    }
}

proof fn lemma_inner_node(
    g: GraphModel,
    ws: Seq<Waypoint>,
    n: int,
    i: int,
    near: spec_fn(Place) -> Seq<(SegmentId, u64)>,
    project: spec_fn(Projecting) -> Option<Projection>,
)
    requires
        0 <= i < n,
        inner_nodes(g, ws, n, near, project) is Ok,
    ensures
        inner_nodes(g, ws, n, near, project)->Ok_0[i] == snapped(
            g,
            ws[i + 1].place(),
            ws[i + 1].hint(),
            near,
            project,
        )->Some_0.node,
    decreases n,
{
    lemma_inner_nodes_count(g, ws, n - 1, near, project);
    if i < n - 1 {
        lemma_inner_node(g, ws, n - 1, i, near, project);
    }
}

proof fn lemma_route_via_leads(
    g: GraphModel,
    first: Seq<BoundaryCandidate>,
    nodes: Seq<NodeId>,
    last: Seq<BoundaryCandidate>,
    max_turn: u32,
    zoom: u8,
    search: spec_fn(PathQuery) -> PathModel,
    turn: spec_fn(Turn) -> Option<u32>,
)
    requires
        finds_paths(g, search),
        anchors_hold(g, first),
        anchors_hold(g, last),
        nodes.len() > 0,
    ensures
        (match route_via(g, first, nodes, last, max_turn, zoom, search, turn) {
            RouteModel::Found { path, start_node, via_split_points, .. } => path.len() <= usize::MAX
                ==> {
                &&& g.walk_end(start_node, path) is Some
                &&& via_split_points.len() == nodes.len()
                &&& forall|i: int|
                    0 <= i < nodes.len() ==> #[trigger] via_split_points[i] <= path.len()
                        && g.walk_end(start_node, path.take(via_split_points[i] as int)) == Some(
                        nodes[i],
                    )
                &&& forall|i: int, j: int|
                    0 <= i <= j < nodes.len() ==> #[trigger] via_split_points[i]
                        <= #[trigger] via_split_points[j]
            },
            _ => true,
        }),
{
    let r = route_via(g, first, nodes, last, max_turn, zoom, search, turn);
    if r is Found && r->path.len() <= usize::MAX {
        let n = nodes.len() as int;
        let f = boundary_leg(
            first,
            FixedEnd::To(nodes[0]),
            max_turn,
            zoom,
            search,
            no_turns(),
        )->Ok_0;
        lemma_best_leg(
            g,
            first,
            first.len() as int,
            FixedEnd::To(nodes[0]),
            max_turn,
            zoom,
            search,
            no_turns(),
        );
        let fc = first[f.idx];
        let from = fc.anchor;
        lemma_walked(g, first, f.idx);
        let start = chain_start(fc).with_leg(f.segments, f.length_cm as int);
        lemma_chained_fails(nodes, n - 1, start, max_turn, zoom, search);
        let c = chained(nodes, n - 1, start, max_turn, zoom, search)->Ok_0;
        let end = FixedEnd::From(nodes.last(), c.current_seg);
        let l = boundary_leg(last, end, max_turn, zoom, search, turn)->Ok_0;
        lemma_best_leg(g, last, last.len() as int, end, max_turn, zoom, search, turn);
        lemma_walked(g, last, l.idx);
        lemma_chained_grows(nodes, 0, n - 1, start, max_turn, zoom, search);
        lemma_with_leg(
            g,
            chain_start(fc),
            from,
            Seq::empty(),
            fc.continuation,
            f.segments,
            f.length_cm as int,
            nodes[0],
        );
        assert(Seq::empty().push(nodes[0]) =~= nodes.take(1));
        lemma_chained_leads(g, from, nodes, n - 1, start, max_turn, zoom, search);
        assert(nodes.take(n) =~= nodes);
        lemma_walk_on(g, from, c.path, l.segments);
        lemma_walk_on(g, from, c.path + l.segments, walked(last[l.idx]));
        assert forall|i: int| 0 <= i < n implies #[trigger] c.via_split_points[i]
            <= r->path.len() && g.walk_end(from, r->path.take(c.via_split_points[i] as int))
            == Some(nodes[i]) by {
            assert(r->path.take(c.via_split_points[i] as int) =~= c.path.take(
                c.via_split_points[i] as int,
            ));
        }
    }
}

/// Whether no turn of a path that starts at `from` is sharper than allowed, where anything
/// is known of it.
pub open spec fn complies(
    g: GraphModel,
    from: NodeId,
    path: Seq<SegmentId>,
    max_turn: u32,
    turn: spec_fn(Turn) -> Option<u32>,
) -> bool {
    forall|i: int|
        0 < i < path.len() ==> (match g.walk_end(from, #[trigger] path.take(i)) {
            Some(at) => gentle(
                Turn { from_seg: path[i - 1], at, to_seg: path[i] },
                max_turn,
                turn,
            ),
            None => true,
        })
}

/// Whether the same holds of the turn from the segment `before` onto the path as well.
pub open spec fn complies_after(
    g: GraphModel,
    from: NodeId,
    before: SegmentId,
    path: Seq<SegmentId>,
    max_turn: u32,
    turn: spec_fn(Turn) -> Option<u32>,
) -> bool {
    &&& complies(g, from, path, max_turn, turn)
    &&& path.len() > 0 ==> gentle(
        Turn { from_seg: before, at: from, to_seg: path[0] },
        max_turn,
        turn,
    )
}

/// Whether every path that the search finds keeps to the turn limit that it was asked to
/// keep to.
pub open spec fn keeps_to_the_limit(
    g: GraphModel,
    search: spec_fn(PathQuery) -> PathModel,
    turn: spec_fn(Turn) -> Option<u32>,
) -> bool {
    forall|q: PathQuery|
        (match #[trigger] search(q) {
            PathModel::Found { segments, length_cm } => complies_after(
                g,
                q.from_node,
                q.from_seg,
                segments,
                q.max_turn_microdeg,
                turn,
            ),
            _ => true,
        })
}

proof fn lemma_complies_on(
    g: GraphModel,
    from: NodeId,
    a: Seq<SegmentId>,
    at: NodeId,
    before: SegmentId,
    b: Seq<SegmentId>,
    max_turn: u32,
    turn: spec_fn(Turn) -> Option<u32>,
)
    requires
        complies(g, from, a, max_turn, turn),
        g.walk_end(from, a) == Some(at),
        a.len() > 0 ==> before == a.last(),
        complies_after(g, at, before, b, max_turn, turn),
    ensures
        complies(g, from, a + b, max_turn, turn),
{
    let path = a + b;
    assert forall|i: int| 0 < i < path.len() implies (match g.walk_end(
        from,
        #[trigger] path.take(i),
    ) {
        Some(n) => gentle(Turn { from_seg: path[i - 1], at: n, to_seg: path[i] }, max_turn, turn),
        None => true,
    }) by {
        if i < a.len() {
            assert(path.take(i) =~= a.take(i));
        } else if i == a.len() {
            assert(path.take(i) =~= a);
        } else {
            let k = i - a.len();
            assert(path.take(i) =~= a + b.take(k));
            lemma_walk_on(g, from, a, b.take(k));
        }
    }
}

/// What holds of a route under way: it keeps to the limit, and the segment by which its
/// end was reached is its last one.
spec fn under_the_limit(
    g: GraphModel,
    c: Chain,
    from: NodeId,
    at: NodeId,
    max_turn: u32,
    turn: spec_fn(Turn) -> Option<u32>,
) -> bool {
    &&& complies(g, from, c.path, max_turn, turn)
    &&& g.walk_end(from, c.path) == Some(at)
    &&& c.path.len() > 0 ==> c.current_seg == c.path.last()
}

proof fn lemma_leg_under_the_limit(
    g: GraphModel,
    c: Chain,
    from: NodeId,
    at: NodeId,
    segments: Seq<SegmentId>,
    length_cm: int,
    to: NodeId,
    max_turn: u32,
    turn: spec_fn(Turn) -> Option<u32>,
)
    requires
        under_the_limit(g, c, from, at, max_turn, turn),
        g.walk_end(at, segments) == Some(to),
        complies_after(g, at, c.current_seg, segments, max_turn, turn),
    ensures
        under_the_limit(g, c.with_leg(segments, length_cm), from, to, max_turn, turn),
{
    lemma_complies_on(g, from, c.path, at, c.current_seg, segments, max_turn, turn);
    lemma_walk_on(g, from, c.path, segments);
    if segments.len() == 0 {
        assert(c.path + segments =~= c.path);
    }
}

proof fn lemma_chained_under_the_limit(
    g: GraphModel,
    from: NodeId,
    nodes: Seq<NodeId>,
    n: int,
    start: Chain,
    max_turn: u32,
    zoom: u8,
    search: spec_fn(PathQuery) -> PathModel,
    turn: spec_fn(Turn) -> Option<u32>,
)
    requires
        finds_paths(g, search),
        keeps_to_the_limit(g, search, turn),
        0 <= n < nodes.len(),
        under_the_limit(g, start, from, nodes[0], max_turn, turn),
    ensures
        chained(nodes, n, start, max_turn, zoom, search) matches Ok(c) ==> under_the_limit(
            g,
            c,
            from,
            nodes[n],
            max_turn,
            turn,
        ),
    decreases n,
{
    if n > 0 {
        lemma_chained_under_the_limit(g, from, nodes, n - 1, start, max_turn, zoom, search, turn);
        match chained(nodes, n - 1, start, max_turn, zoom, search) {
            Ok(c) => {
                let q = any_road(nodes[n - 1], c.current_seg, nodes[n], max_turn, zoom);
                match search(q) {
                    PathModel::Found { segments, length_cm } => {
                        lemma_leg_under_the_limit(
                            g,
                            c,
                            from,
                            nodes[n - 1],
                            segments,
                            length_cm as int,
                            nodes[n],
                            max_turn,
                            turn,
                        );
                    },
                    _ => {},
                }
            },
            Err(_) => {},
        }
    }
}

proof fn lemma_best_leg_is_a_leg(
    cands: Seq<BoundaryCandidate>,
    n: int,
    end: FixedEnd,
    max_turn: u32,
    zoom: u8,
    search: spec_fn(PathQuery) -> PathModel,
    turn: spec_fn(Turn) -> Option<u32>,
)
    ensures
        best_leg(cands, n, end, max_turn, zoom, search, turn) matches Ok(Some(b)) ==> 0 <= b.idx < n
            && leg_path(cands[b.idx], end, max_turn, zoom, search, turn) == (PathModel::Found {
            segments: b.segments,
            length_cm: b.length_cm,
        }),
    decreases n,
{
    if n > 0 {
        lemma_best_leg_is_a_leg(cands, n - 1, end, max_turn, zoom, search, turn);
    }
}

spec fn is_a_pair(
    first: Seq<BoundaryCandidate>,
    last: Seq<BoundaryCandidate>,
    b: BestPair,
    max_turn: u32,
    zoom: u8,
    search: spec_fn(PathQuery) -> PathModel,
    turn: spec_fn(Turn) -> Option<u32>,
) -> bool {
    &&& 0 <= b.first < first.len()
    &&& 0 <= b.last < last.len()
    &&& pair_path(first[b.first], last[b.last], max_turn, zoom, search, turn) is Found
    &&& pair_path(
        first[b.first],
        last[b.last],
        max_turn,
        zoom,
        search,
        turn,
    )->segments == b.segments
}

proof fn lemma_best_in_row_is_a_pair(
    first: Seq<BoundaryCandidate>,
    f: int,
    last: Seq<BoundaryCandidate>,
    n: int,
    best: Option<BestPair>,
    max_turn: u32,
    zoom: u8,
    search: spec_fn(PathQuery) -> PathModel,
    turn: spec_fn(Turn) -> Option<u32>,
)
    requires
        0 <= f < first.len(),
        n <= last.len(),
        best matches Some(b) ==> is_a_pair(first, last, b, max_turn, zoom, search, turn),
    ensures
        best_in_row(first, f, last, n, best, max_turn, zoom, search, turn) matches Ok(Some(b))
            ==> is_a_pair(first, last, b, max_turn, zoom, search, turn),
    decreases n,
{
    if n > 0 {
        lemma_best_in_row_is_a_pair(first, f, last, n - 1, best, max_turn, zoom, search, turn);
    }
}

proof fn lemma_best_pair_is_a_pair(
    first: Seq<BoundaryCandidate>,
    n: int,
    last: Seq<BoundaryCandidate>,
    max_turn: u32,
    zoom: u8,
    search: spec_fn(PathQuery) -> PathModel,
    turn: spec_fn(Turn) -> Option<u32>,
)
    requires
        n <= first.len(),
    ensures
        best_pair(first, n, last, max_turn, zoom, search, turn) matches Ok(Some(b)) ==> is_a_pair(
            first,
            last,
            b,
            max_turn,
            zoom,
            search,
            turn,
        ),
    decreases n,
{
    if n > 0 {
        lemma_best_pair_is_a_pair(first, n - 1, last, max_turn, zoom, search, turn);
        match best_pair(first, n - 1, last, max_turn, zoom, search, turn) {
            Ok(best) => {
                lemma_best_in_row_is_a_pair(
                    first,
                    n - 1,
                    last,
                    last.len() as int,
                    best,
                    max_turn,
                    zoom,
                    search,
                    turn,
                );
            },
            Err(_) => {},
        }
    }
}

/// A leg that is added to a route under the limit, and the segment of the last candidate
/// behind it, leave the route under the limit.
proof fn lemma_end_under_the_limit(
    g: GraphModel,
    c: Chain,
    from: NodeId,
    at: NodeId,
    segments: Seq<SegmentId>,
    lc: BoundaryCandidate,
    max_turn: u32,
    turn: spec_fn(Turn) -> Option<u32>,
)
    requires
        under_the_limit(g, c, from, at, max_turn, turn),
        g.walk_end(at, segments) == Some(lc.continuation),
        complies_after(g, at, c.current_seg, segments, max_turn, turn),
        joins(last_or(segments, c.current_seg), lc, max_turn, turn),
    ensures
        complies(g, from, c.path + segments + walked(lc), max_turn, turn),
{
    let d = c.with_leg(segments, 0);
    lemma_leg_under_the_limit(g, c, from, at, segments, 0, lc.continuation, max_turn, turn);
    lemma_complies_on(
        g,
        from,
        d.path,
        lc.continuation,
        d.current_seg,
        walked(lc),
        max_turn,
        turn,
    );
}

/// Where every path that the search finds keeps to the turn limit, so does every route: no
/// turn between two segments of it is sharper than allowed, the turns off the segment of
/// the first waypoint and onto the segment of the last one included.
pub proof fn law_routes_keep_to_the_turn_limit(
    g: GraphModel,
    ws: Seq<Waypoint>,
    max_turn: u32,
    zoom: u8,
    near: spec_fn(Place) -> Seq<(SegmentId, u64)>,
    project: spec_fn(Projecting) -> Option<Projection>,
    search: spec_fn(PathQuery) -> PathModel,
    turn: spec_fn(Turn) -> Option<u32>,
)
    requires
        g.wf(),
        finds_paths(g, search),
        keeps_to_the_limit(g, search, turn),
    ensures
        (match route(g, ws, max_turn, zoom, near, project, search, turn) {
            RouteModel::Found { path, start_node, .. } => complies(
                g,
                start_node,
                path,
                max_turn,
                turn,
            ),
            _ => true,
        }),
{
    let r = route(g, ws, max_turn, zoom, near, project, search, turn);
    if r is Found {
        let first = candidates(g, ws[0], near, project)->Some_0;
        let last = candidates(g, ws.last(), near, project)->Some_0;
        lemma_candidates_anchor(g, ws[0], near, project);
        lemma_candidates_anchor(g, ws.last(), near, project);
        if ws.len() == 2 {
            let n = first.len() as int;
            lemma_best_pair_is_a_pair(first, n, last, max_turn, zoom, search, turn);
            let b = best_pair(first, n, last, max_turn, zoom, search, turn)->Ok_0->Some_0;
            let fc = first[b.first];
            let lc = last[b.last];
            lemma_walked(g, first, b.first);
            let q = any_road(fc.continuation, fc.bias(), lc.continuation, max_turn, zoom);
            assert(search(q) == search(q));
            lemma_end_under_the_limit(
                g,
                chain_start(fc),
                fc.anchor,
                fc.continuation,
                b.segments,
                lc,
                max_turn,
                turn,
            );
        } else {
            let nodes = inner_nodes(g, ws, ws.len() - 2, near, project)->Ok_0;
            lemma_inner_nodes_count(g, ws, ws.len() - 2, near, project);
            lemma_route_via_under_the_limit(g, first, nodes, last, max_turn, zoom, search, turn);
        }
    }
}

proof fn lemma_route_via_under_the_limit(
    g: GraphModel,
    first: Seq<BoundaryCandidate>,
    nodes: Seq<NodeId>,
    last: Seq<BoundaryCandidate>,
    max_turn: u32,
    zoom: u8,
    search: spec_fn(PathQuery) -> PathModel,
    turn: spec_fn(Turn) -> Option<u32>,
)
    requires
        finds_paths(g, search),
        keeps_to_the_limit(g, search, turn),
        anchors_hold(g, first),
        anchors_hold(g, last),
        nodes.len() > 0,
    ensures
        (match route_via(g, first, nodes, last, max_turn, zoom, search, turn) {
            RouteModel::Found { path, start_node, .. } => complies(
                g,
                start_node,
                path,
                max_turn,
                turn,
            ),
            _ => true,
        }),
{
    if route_via(g, first, nodes, last, max_turn, zoom, search, turn) is Found {
        let n = nodes.len() as int;
        let to = FixedEnd::To(nodes[0]);
        lemma_best_leg_is_a_leg(first, first.len() as int, to, max_turn, zoom, search, no_turns());
        let f = boundary_leg(first, to, max_turn, zoom, search, no_turns())->Ok_0;
        let fc = first[f.idx];
        lemma_walked(g, first, f.idx);
        let q = any_road(fc.continuation, fc.bias(), nodes[0], max_turn, zoom);
        assert(search(q) == search(q));
        lemma_leg_under_the_limit(
            g,
            chain_start(fc),
            fc.anchor,
            fc.continuation,
            f.segments,
            f.length_cm as int,
            nodes[0],
            max_turn,
            turn,
        );
        let start = chain_start(fc).with_leg(f.segments, f.length_cm as int);
        lemma_chained_fails(nodes, n - 1, start, max_turn, zoom, search);
        lemma_chained_under_the_limit(
            g,
            fc.anchor,
            nodes,
            n - 1,
            start,
            max_turn,
            zoom,
            search,
            turn,
        );
        let c = chained(nodes, n - 1, start, max_turn, zoom, search)->Ok_0;
        let end = FixedEnd::From(nodes.last(), c.current_seg);
        lemma_best_leg_is_a_leg(last, last.len() as int, end, max_turn, zoom, search, turn);
        let l = boundary_leg(last, end, max_turn, zoom, search, turn)->Ok_0;
        let lc = last[l.idx];
        let p = any_road(nodes.last(), c.current_seg, lc.continuation, max_turn, zoom);
        assert(search(p) == search(p));
        lemma_end_under_the_limit(
            g,
            c,
            fc.anchor,
            nodes.last(),
            l.segments,
            lc,
            max_turn,
            turn,
        );
    }
}

/// Whether both ends of every segment are in the network.
pub open spec fn ends_are_there(g: GraphModel) -> bool {
    forall|k: u32| #[trigger]
        g.segments.contains_key(k) ==> g.nodes.contains_key(g.segments[k].start_node.0)
            && g.nodes.contains_key(g.segments[k].end_node.0)
}

proof fn lemma_all_have_places(g: GraphModel, nodes: Seq<NodeId>)
    requires
        forall|i: int| 0 <= i < nodes.len() ==> g.nodes.contains_key((#[trigger] nodes[i]).0),
    ensures
        coords_of(g, nodes) == Seq::new(
            nodes.len(),
            |i: int| (g.nodes[nodes[i].0].lon, g.nodes[nodes[i].0].lat),
        ),
    decreases nodes.len(),
{
    if nodes.len() > 0 {
        let rest = nodes.drop_last();
        assert forall|i: int| 0 <= i < rest.len() implies g.nodes.contains_key(
            (#[trigger] rest[i]).0,
        ) by {
            assert(rest[i] == nodes[i]);
        }
        lemma_all_have_places(g, rest);
        assert(g.nodes.contains_key(nodes[nodes.len() - 1].0));
    }
    assert(coords_of(g, nodes) =~= Seq::new(
        nodes.len(),
        |i: int| (g.nodes[nodes[i].0].lon, g.nodes[nodes[i].0].lat),
    ));
}

proof fn lemma_inner_nodes_are_there(
    g: GraphModel,
    ws: Seq<Waypoint>,
    n: int,
    near: spec_fn(Place) -> Seq<(SegmentId, u64)>,
    project: spec_fn(Projecting) -> Option<Projection>,
)
    requires
        ends_are_there(g),
    ensures
        inner_nodes(g, ws, n, near, project) matches Ok(v) ==> forall|i: int|
            0 <= i < v.len() ==> g.nodes.contains_key((#[trigger] v[i]).0),
    decreases n,
{
    if n > 0 {
        lemma_inner_nodes_are_there(g, ws, n - 1, near, project);
    }
}

/// Where both ends of every segment are in the network, a route tells for each waypoint,
/// in their order, the place of the node that it was snapped to: the start node for the
/// first.
pub proof fn law_each_waypoint_has_a_place(
    g: GraphModel,
    ws: Seq<Waypoint>,
    max_turn: u32,
    zoom: u8,
    near: spec_fn(Place) -> Seq<(SegmentId, u64)>,
    project: spec_fn(Projecting) -> Option<Projection>,
    search: spec_fn(PathQuery) -> PathModel,
    turn: spec_fn(Turn) -> Option<u32>,
)
    requires
        ends_are_there(g),
    ensures
        (match route(g, ws, max_turn, zoom, near, project, search, turn) {
            RouteModel::Found { start_node, snapped_coords, .. } => {
                &&& snapped_coords.len() == ws.len()
                &&& snapped_coords.first() == (
                    g.nodes[start_node.0].lon,
                    g.nodes[start_node.0].lat,
                )
                &&& forall|i: int|
                    0 < i < ws.len() - 1 ==> #[trigger] snapped_coords[i] == ({
                        let n = snapped(
                            g,
                            ws[i].place(),
                            ws[i].hint(),
                            near,
                            project,
                        )->Some_0.node;
                        (g.nodes[n.0].lon, g.nodes[n.0].lat)
                    })
            },
            _ => true,
        }),
{
    let r = route(g, ws, max_turn, zoom, near, project, search, turn);
    if r is Found {
        let first = candidates(g, ws[0], near, project)->Some_0;
        let last = candidates(g, ws.last(), near, project)->Some_0;
        if ws.len() == 2 {
            let n = first.len() as int;
            lemma_best_pair_is_a_pair(first, n, last, max_turn, zoom, search, turn);
            let b = best_pair(first, n, last, max_turn, zoom, search, turn)->Ok_0->Some_0;
            lemma_all_have_places(g, seq![first[b.first].anchor, last[b.last].anchor]);
        } else {
            let nodes = inner_nodes(g, ws, ws.len() - 2, near, project)->Ok_0;
            lemma_inner_nodes_count(g, ws, ws.len() - 2, near, project);
            lemma_inner_nodes_are_there(g, ws, ws.len() - 2, near, project);
            let to = FixedEnd::To(nodes[0]);
            let f = boundary_leg(first, to, max_turn, zoom, search, no_turns())->Ok_0;
            lemma_best_leg_is_a_leg(
                first,
                first.len() as int,
                to,
                max_turn,
                zoom,
                search,
                no_turns(),
            );
            let start = chain_start(first[f.idx]).with_leg(f.segments, f.length_cm as int);
            lemma_chained_fails(nodes, nodes.len() - 1, start, max_turn, zoom, search);
            let c = chained(nodes, nodes.len() - 1, start, max_turn, zoom, search)->Ok_0;
            let end = FixedEnd::From(nodes.last(), c.current_seg);
            lemma_best_leg_is_a_leg(last, last.len() as int, end, max_turn, zoom, search, turn);
            let l = boundary_leg(last, end, max_turn, zoom, search, turn)->Ok_0;
            let shown = seq![first[f.idx].anchor] + nodes.push(last[l.idx].anchor);
            assert forall|i: int| 0 <= i < shown.len() implies g.nodes.contains_key(
                (#[trigger] shown[i]).0,
            ) by {
                if 0 < i < shown.len() - 1 {
                    assert(shown[i] == nodes[i - 1]);
                }
            }
            lemma_all_have_places(g, shown);
            assert forall|i: int| 0 < i < ws.len() - 1 implies #[trigger] r->snapped_coords[i]
                == ({
                let n = snapped(g, ws[i].place(), ws[i].hint(), near, project)->Some_0.node;
                (g.nodes[n.0].lon, g.nodes[n.0].lat)
            }) by {
                lemma_inner_node(g, ws, ws.len() - 2, i - 1, near, project);
                assert(shown[i] == nodes[i - 1]);
            }
        }
    }
}

} // verus!
