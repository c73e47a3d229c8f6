//! Why two nodes are not connected.
//!
//! Nothing here runs while a location is encoded. It spends an extra search after one
//! has failed, to turn "no route" into an answer.
use vstd::prelude::*;

use crate::expansion::{turns_by, Turn};
use crate::graph::{Graph, GraphModel, NodeId, SegmentId, TileKey};
use crate::oracle::{answer, lemma_answer, settled};
use crate::path::{any_road, query, PathModel, PathOutcome, PathQuery, ANY_TURN};

verus! {

/// A turn on a path that is sharper than allowed.
#[derive(Debug, Clone, Copy, PartialEq, Eq, Structural)]
pub struct SharpTurnPoint {
    pub node: NodeId,
    pub from_segment: SegmentId,
    pub to_segment: SegmentId,
    pub deviation_microdeg: u32,
}

/// The outcome of probing a connection twice: under the turn limit, and without one.
#[derive(Debug)]
pub struct ConnectionDiagnosis {
    pub connected_within_cap: bool,
    pub length_within_cap_cm: Option<i64>,
    pub connected_unrestricted: bool,
    pub length_unrestricted_cm: Option<i64>,
    /// Only the turn limit is in the way, not connectivity or direction.
    pub blocked_by_turn_angle: bool,
    /// The turns that are too sharp, if `blocked_by_turn_angle`.
    pub sharp_turns: Vec<SharpTurnPoint>,
    /// A search came to the border of this tile: load it and diagnose again.
    pub needs_tile: Option<TileKey>,
}

/// What a `ConnectionDiagnosis` holds.
#[verifier::ext_equal]
pub struct DiagnosisModel {
    pub connected_within_cap: bool,
    pub length_within_cap_cm: Option<i64>,
    pub connected_unrestricted: bool,
    pub length_unrestricted_cm: Option<i64>,
    pub blocked_by_turn_angle: bool,
    pub sharp_turns: Seq<SharpTurnPoint>,
    pub needs_tile: Option<TileKey>,
}

impl View for ConnectionDiagnosis {
    type V = DiagnosisModel;

    open spec fn view(&self) -> DiagnosisModel {
        DiagnosisModel {
            connected_within_cap: self.connected_within_cap,
            length_within_cap_cm: self.length_within_cap_cm,
            connected_unrestricted: self.connected_unrestricted,
            length_unrestricted_cm: self.length_unrestricted_cm,
            blocked_by_turn_angle: self.blocked_by_turn_angle,
            sharp_turns: self.sharp_turns@,
            needs_tile: self.needs_tile,
        }
    }
}

/// The turns sharper than `max_turn` on `path`, walked from `node` by way of `prev`.
/// The walk ends at a segment that is not there.
pub open spec fn sharp_turns_on(
    g: GraphModel,
    node: NodeId,
    prev: SegmentId,
    path: Seq<SegmentId>,
    max_turn: u32,
    turn: spec_fn(Turn) -> Option<u32>,
) -> Seq<SharpTurnPoint>
    decreases path.len(),
{
    if path.len() == 0 {
        Seq::empty()
    } else {
        let s = path[0];
        let dev = turn(Turn { from_seg: prev, at: node, to_seg: s });
        let here = if dev is Some && dev->Some_0 > max_turn {
            seq![
                SharpTurnPoint {
                    node,
                    from_segment: prev,
                    to_segment: s,
                    deviation_microdeg: dev->Some_0,
                },
            ]
        } else {
            Seq::empty()
        };
        if g.segments.contains_key(s.0) {
            here + sharp_turns_on(g, far_end(g, s, node), s, path.skip(1), max_turn, turn)
        } else {
            here
        }
    }
}

/// The end of segment `s` that is not `node`, or its start.
pub open spec fn far_end(g: GraphModel, s: SegmentId, node: NodeId) -> NodeId {
    if g.segments[s.0].start_node == node {
        g.segments[s.0].end_node
    } else {
        g.segments[s.0].start_node
    }
}

/// A diagnosis that found nothing.
pub open spec fn blank_diagnosis() -> DiagnosisModel {
    DiagnosisModel {
        connected_within_cap: false,
        length_within_cap_cm: None,
        connected_unrestricted: false,
        length_unrestricted_cm: None,
        blocked_by_turn_angle: false,
        sharp_turns: Seq::empty(),
        needs_tile: None,
    }
}

/// The diagnosis of the connection between two nodes, given what a search answers.
pub open spec fn diagnosis(
    g: GraphModel,
    from_node: NodeId,
    from_seg: SegmentId,
    to_node: NodeId,
    max_turn: u32,
    zoom: u8,
    search: spec_fn(PathQuery) -> PathModel,
    turn: spec_fn(Turn) -> Option<u32>,
) -> DiagnosisModel {
    match search(any_road(from_node, from_seg, to_node, max_turn, zoom)) {
        PathModel::Found { segments, length_cm } => DiagnosisModel {
            connected_within_cap: true,
            length_within_cap_cm: Some(length_cm),
            connected_unrestricted: true,
            length_unrestricted_cm: Some(length_cm),
            ..blank_diagnosis()
        },
        PathModel::NeedsTile(k) => DiagnosisModel { needs_tile: Some(k), ..blank_diagnosis() },
        PathModel::NoPath => match search(
            any_road(from_node, from_seg, to_node, ANY_TURN, zoom),
        ) {
            PathModel::Found { segments, length_cm } => {
                let sharp = sharp_turns_on(g, from_node, from_seg, segments, max_turn, turn);
                DiagnosisModel {
                    connected_unrestricted: true,
                    length_unrestricted_cm: Some(length_cm),
                    blocked_by_turn_angle: true,
                    sharp_turns: sharp,
                    ..blank_diagnosis()
                }
            },
            PathModel::NeedsTile(k) => DiagnosisModel {
                needs_tile: Some(k),
                ..blank_diagnosis()
            },
            PathModel::NoPath => blank_diagnosis(),
        },
    }
}

/// The answers of a path search.
pub open spec fn paths_by<P: Fn(PathQuery) -> PathOutcome>(search: P) -> spec_fn(
    PathQuery,
) -> PathModel {
    |q: PathQuery| answer(search, q)
}

/// The turns sharper than `max_turn_microdeg` on `path`, walked from `start_node` by
/// way of `start_seg`.
pub fn find_sharp_turns<F: Fn(Turn) -> Option<u32>>(
    graph: &Graph,
    start_node: NodeId,
    start_seg: SegmentId,
    path: &[SegmentId],
    max_turn_microdeg: u32,
    turn: &F,
) -> (out: Vec<SharpTurnPoint>)
    requires
        forall|t: Turn| call_requires(*turn, (t,)),
    ensures
        settled(*turn) ==> out@ == sharp_turns_on(
            graph@,
            start_node,
            start_seg,
            path@,
            max_turn_microdeg,
            turns_by(*turn),
        ),
        forall|i: int| 0 <= i < out@.len() ==> (#[trigger] out@[i]).deviation_microdeg
            > max_turn_microdeg,
{
    let ghost ask = turns_by(*turn);
    let ghost all = sharp_turns_on(
        graph@,
        start_node,
        start_seg,
        path@,
        max_turn_microdeg,
        ask,
    );
    let mut out: Vec<SharpTurnPoint> = Vec::new();
    let mut node: NodeId = start_node;
    let mut prev: SegmentId = start_seg;
    let mut i: usize = 0;
    assert(path@.skip(0) =~= path@);
    assert(out@ + all =~= all);
    while i < path.len()
        invariant
            i <= path@.len(),
            forall|t: Turn| call_requires(*turn, (t,)),
            ask == turns_by(*turn),
            all == sharp_turns_on(
                graph@,
                start_node,
                start_seg,
                path@,
                max_turn_microdeg,
                ask,
            ),
            forall|k: int| 0 <= k < out@.len() ==> (#[trigger] out@[k]).deviation_microdeg
                > max_turn_microdeg,
            settled(*turn) ==> out@ + sharp_turns_on(
                graph@,
                node,
                prev,
                path@.skip(i as int),
                max_turn_microdeg,
                ask,
            ) == all,
        decreases path@.len() - i,
    {
        let seg: SegmentId = path[i];
        let ghost before = out@;
        let ghost rest = sharp_turns_on(
            graph@,
            node,
            prev,
            path@.skip(i as int),
            max_turn_microdeg,
            ask,
        );
        let question = Turn { from_seg: prev, at: node, to_seg: seg };
        let dev: Option<u32> = turn(question);
        proof {
            lemma_answer(*turn, question, dev);
            assert(path@.skip(i as int)[0] == seg);
            assert(path@.skip(i as int).skip(1) =~= path@.skip(i + 1));
        }
        match dev {
            Some(d) => {
                if d > max_turn_microdeg {
                    out.push(
                        SharpTurnPoint {
                            node,
                            from_segment: prev,
                            to_segment: seg,
                            deviation_microdeg: d,
                        },
                    );
                }
            },
            None => {},
        }
        match graph.segment(seg) {
            Some(s) => {
                let next: NodeId = if s.start_node == node {
                    s.end_node
                } else {
                    s.start_node
                };
                proof {
                    if settled(*turn) {
                        let tail = sharp_turns_on(
                            graph@,
                            next,
                            seg,
                            path@.skip(i + 1),
                            max_turn_microdeg,
                            ask,
                        );
                        assert(before + rest =~= out@ + tail);
                    }
                }
                node = next;
                prev = seg;
            },
            None => {
                proof {
                    if settled(*turn) {
                        assert(before + rest =~= out@);
                    }
                }
                return out;
            },
        }
        i += 1;
    }
    proof {
        if settled(*turn) {
            assert(path@.skip(i as int) =~= Seq::empty());
            assert(out@ =~= all);
        }
    }
    out
}

fn blank() -> (d: ConnectionDiagnosis)
    ensures
        d@ == blank_diagnosis(),
{
    ConnectionDiagnosis {
        connected_within_cap: false,
        length_within_cap_cm: None,
        connected_unrestricted: false,
        length_unrestricted_cm: None,
        blocked_by_turn_angle: false,
        sharp_turns: Vec::new(),
        needs_tile: None,
    }
}

/// Probe the connection between two nodes: under the turn limit first, and where that
/// fails without one, to tell "not connected" from "connected, but only by a turn
/// sharper than allowed".
pub fn diagnose_connection<P: Fn(PathQuery) -> PathOutcome, F: Fn(Turn) -> Option<u32>>(
    graph: &Graph,
    from_node: NodeId,
    from_seg: SegmentId,
    to_node: NodeId,
    max_turn_microdeg: u32,
    zoom: u8,
    search: &P,
    turn: &F,
) -> (d: ConnectionDiagnosis)
    requires
        forall|q: PathQuery| call_requires(*search, (q,)),
        forall|t: Turn| call_requires(*turn, (t,)),
    ensures
        settled(*search) && settled(*turn) ==> d@ == diagnosis(
            graph@,
            from_node,
            from_seg,
            to_node,
            max_turn_microdeg,
            zoom,
            paths_by(*search),
            turns_by(*turn),
        ),
        d.connected_within_cap ==> d.connected_unrestricted,
        d.blocked_by_turn_angle <==> d.connected_unrestricted && !d.connected_within_cap,
        d.sharp_turns@.len() > 0 ==> d.blocked_by_turn_angle,
        d.needs_tile is Some ==> !d.connected_unrestricted,
{
    let capped: PathQuery = query(from_node, from_seg, to_node, max_turn_microdeg, zoom);
    let first: PathOutcome = search(capped);
    proof {
        lemma_answer(*search, capped, first);
    }
    match first {
        PathOutcome::Found(r) => ConnectionDiagnosis {
            connected_within_cap: true,
            length_within_cap_cm: Some(r.length_cm),
            connected_unrestricted: true,
            length_unrestricted_cm: Some(r.length_cm),
            ..blank()
        },
        PathOutcome::NeedsTile(k) => ConnectionDiagnosis { needs_tile: Some(k), ..blank() },
        PathOutcome::NoPath => {
            let open: PathQuery = query(from_node, from_seg, to_node, ANY_TURN, zoom);
            let second: PathOutcome = search(open);
            proof {
                lemma_answer(*search, open, second);
            }
            match second {
                PathOutcome::Found(r) => {
                    let sharp: Vec<SharpTurnPoint> = find_sharp_turns(
                        graph,
                        from_node,
                        from_seg,
                        r.segments.as_slice(),
                        max_turn_microdeg,
                        turn,
                    );
                    ConnectionDiagnosis {
                        connected_unrestricted: true,
                        length_unrestricted_cm: Some(r.length_cm),
                        blocked_by_turn_angle: true,
                        sharp_turns: sharp,
                        ..blank()
                    }
                },
                PathOutcome::NeedsTile(k) => ConnectionDiagnosis {
                    needs_tile: Some(k),
                    ..blank()
                },
                PathOutcome::NoPath => blank(),
            }
        },
    }
}

proof fn lemma_sharp_turns_are_sharp(
    g: GraphModel,
    node: NodeId,
    prev: SegmentId,
    path: Seq<SegmentId>,
    max_turn: u32,
    turn: spec_fn(Turn) -> Option<u32>,
)
    ensures
        forall|i: int|
            0 <= i < sharp_turns_on(g, node, prev, path, max_turn, turn).len()
                ==> (#[trigger] sharp_turns_on(
                g,
                node,
                prev,
                path,
                max_turn,
                turn,
            )[i]).deviation_microdeg > max_turn,
    decreases path.len(),
{
    if path.len() > 0 {
        let s = path[0];
        let next = far_end(g, s, node);
        let all = sharp_turns_on(g, node, prev, path, max_turn, turn);
        let rest = sharp_turns_on(g, next, s, path.skip(1), max_turn, turn);
        lemma_sharp_turns_are_sharp(g, next, s, path.skip(1), max_turn, turn);
        assert forall|i: int| 0 <= i < all.len() implies (#[trigger] all[i]).deviation_microdeg
            > max_turn by {
            let first = all.len() - rest.len();
            if g.segments.contains_key(s.0) && i >= first {
                assert(all[i] == rest[i - first]);
            }
        }
    }
}

/// A connection is blocked by the turn limit just where it is there without the limit, and
/// not under it. Turns are named only then, and they are sharper than the limit. A search
/// that came to the border of a tile says nothing about the connection.
pub proof fn law_blocked_where_only_the_limit_fails(
    g: GraphModel,
    from_node: NodeId,
    from_seg: SegmentId,
    to_node: NodeId,
    max_turn: u32,
    zoom: u8,
    search: spec_fn(PathQuery) -> PathModel,
    turn: spec_fn(Turn) -> Option<u32>,
)
    ensures
        ({
            let d = diagnosis(g, from_node, from_seg, to_node, max_turn, zoom, search, turn);
            &&& d.connected_within_cap ==> d.connected_unrestricted
            &&& d.blocked_by_turn_angle <==> d.connected_unrestricted && !d.connected_within_cap
            &&& d.sharp_turns.len() > 0 ==> d.blocked_by_turn_angle
            &&& forall|i: int|
                0 <= i < d.sharp_turns.len() ==> (#[trigger] d.sharp_turns[i]).deviation_microdeg
                    > max_turn
            &&& d.needs_tile is Some ==> d == (DiagnosisModel {
                needs_tile: d.needs_tile,
                ..blank_diagnosis()
            })
        }),
{
    match search(any_road(from_node, from_seg, to_node, ANY_TURN, zoom)) {
        PathModel::Found { segments, length_cm } => {
            lemma_sharp_turns_are_sharp(g, from_node, from_seg, segments, max_turn, turn);
        },
        _ => {},
    }
}

/// Where a path without a sharp turn is always found under the limit too, a connection is
/// blocked just where sharp turns are named.
pub proof fn law_sharp_turns_are_what_blocks(
    g: GraphModel,
    from_node: NodeId,
    from_seg: SegmentId,
    to_node: NodeId,
    max_turn: u32,
    zoom: u8,
    search: spec_fn(PathQuery) -> PathModel,
    turn: spec_fn(Turn) -> Option<u32>,
)
    requires
        (match search(any_road(from_node, from_seg, to_node, ANY_TURN, zoom)) {
            PathModel::Found { segments, length_cm } => sharp_turns_on(
                g,
                from_node,
                from_seg,
                segments,
                max_turn,
                turn,
            ).len() == 0 ==> !(search(
                any_road(from_node, from_seg, to_node, max_turn, zoom),
            ) is NoPath),
            _ => true,
        }),
    ensures
        ({
            let d = diagnosis(g, from_node, from_seg, to_node, max_turn, zoom, search, turn);
            d.blocked_by_turn_angle <==> d.sharp_turns.len() > 0
        }),
{
}

/// The turn onto segment `i` of a path that is walked from `node` by way of `prev`.
pub open spec fn turn_onto(
    g: GraphModel,
    node: NodeId,
    prev: SegmentId,
    path: Seq<SegmentId>,
    i: int,
) -> Turn {
    Turn {
        from_seg: if i == 0 {
            prev
        } else {
            path[i - 1]
        },
        at: g.walk_end(node, path.take(i))->Some_0,
        to_seg: path[i],
    }
}

/// Whether a turn is sharper than allowed.
pub open spec fn too_sharp(t: Turn, max_turn: u32, turn: spec_fn(Turn) -> Option<u32>) -> bool {
    match turn(t) {
        Some(d) => d > max_turn,
        None => false,
    }
}

/// The turns onto the first `n` segments of a path that are sharper than allowed.
pub open spec fn sharp_among(
    g: GraphModel,
    node: NodeId,
    prev: SegmentId,
    path: Seq<SegmentId>,
    n: int,
    max_turn: u32,
    turn: spec_fn(Turn) -> Option<u32>,
) -> Seq<SharpTurnPoint>
    decreases n,
{
    if n <= 0 {
        Seq::empty()
    } else {
        let before = sharp_among(g, node, prev, path, n - 1, max_turn, turn);
        let t = turn_onto(g, node, prev, path, n - 1);
        if too_sharp(t, max_turn, turn) {
            before.push(
                SharpTurnPoint {
                    node: t.at,
                    from_segment: t.from_seg,
                    to_segment: t.to_seg,
                    deviation_microdeg: turn(t)->Some_0,
                },
            )
        } else {
            before
        }
    }
}

proof fn lemma_walk_first(g: GraphModel, node: NodeId, path: Seq<SegmentId>, i: int)
    requires
        1 <= i <= path.len(),
        g.touches(path[0], node),
    ensures
        g.walk_end(node, path.take(i)) == g.walk_end(
            far_end(g, path[0], node),
            path.skip(1).take(i - 1),
        ),
    decreases i,
{
    reveal_with_fuel(GraphModel::walk_end, 2);
    let p = path.take(i);
    if i == 1 {
        assert(p.drop_last() =~= Seq::empty());
        assert(path.skip(1).take(0) =~= Seq::empty());
    } else {
        lemma_walk_first(g, node, path, i - 1);
        assert(p.drop_last() =~= path.take(i - 1));
        assert(path.skip(1).take(i - 1).drop_last() =~= path.skip(1).take(i - 2));
        assert(path.skip(1).take(i - 1).last() == path[i - 1]);
    }
}

proof fn lemma_walk_is_there(g: GraphModel, node: NodeId, path: Seq<SegmentId>)
    requires
        path.len() > 0,
        g.walk_end(node, path) is Some,
    ensures
        g.touches(path[0], node),
        g.walk_end(far_end(g, path[0], node), path.skip(1)) is Some,
    decreases path.len(),
{
    reveal_with_fuel(GraphModel::walk_end, 2);
    if path.len() == 1 {
        assert(path.drop_last() =~= Seq::empty());
        assert(path.skip(1) =~= Seq::empty());
    } else {
        lemma_walk_is_there(g, node, path.drop_last());
        lemma_walk_first(g, node, path, path.len() as int);
        assert(path.take(path.len() as int) =~= path);
        assert(path.skip(1).take(path.len() - 1) =~= path.skip(1));
    }
}

proof fn lemma_sharp_shift(
    g: GraphModel,
    node: NodeId,
    prev: SegmentId,
    path: Seq<SegmentId>,
    n: int,
    max_turn: u32,
    turn: spec_fn(Turn) -> Option<u32>,
)
    requires
        1 <= n <= path.len(),
        g.touches(path[0], node),
    ensures
        sharp_among(g, node, prev, path, n, max_turn, turn) == sharp_among(
            g,
            node,
            prev,
            path,
            1,
            max_turn,
            turn,
        ) + sharp_among(
            g,
            far_end(g, path[0], node),
            path[0],
            path.skip(1),
            n - 1,
            max_turn,
            turn,
        ),
    decreases n,
{
    let next = far_end(g, path[0], node);
    let first = sharp_among(g, node, prev, path, 1, max_turn, turn);
    if n == 1 {
        assert(first + sharp_among(g, next, path[0], path.skip(1), 0, max_turn, turn) =~= first);
    } else {
        lemma_sharp_shift(g, node, prev, path, n - 1, max_turn, turn);
        lemma_walk_first(g, node, path, n - 1);
        assert(turn_onto(g, node, prev, path, n - 1) == turn_onto(
            g,
            next,
            path[0],
            path.skip(1),
            n - 2,
        ));
        assert(sharp_among(g, node, prev, path, n, max_turn, turn) =~= first + sharp_among(
            g,
            next,
            path[0],
            path.skip(1),
            n - 1,
            max_turn,
            turn,
        ));
    }
}

/// The turns that are named of a connected path are those onto each of its segments, from
/// the segment before it and at the node between, that are sharper than allowed: all of
/// them, in their order.
pub proof fn law_every_sharp_turn_is_named(
    g: GraphModel,
    node: NodeId,
    prev: SegmentId,
    path: Seq<SegmentId>,
    max_turn: u32,
    turn: spec_fn(Turn) -> Option<u32>,
)
    requires
        g.walk_end(node, path) is Some,
    ensures
        sharp_turns_on(g, node, prev, path, max_turn, turn) == sharp_among(
            g,
            node,
            prev,
            path,
            path.len() as int,
            max_turn,
            turn,
        ),
    decreases path.len(),
{
    if path.len() > 0 {
        let next = far_end(g, path[0], node);
        let rest = path.skip(1);
        lemma_walk_is_there(g, node, path);
        law_every_sharp_turn_is_named(g, next, path[0], rest, max_turn, turn);
        lemma_sharp_shift(g, node, prev, path, path.len() as int, max_turn, turn);
        assert(path.take(0) =~= Seq::empty());
        let first = sharp_among(g, node, prev, path, 1, max_turn, turn);
        reveal_with_fuel(sharp_among, 2);
        let t = turn_onto(g, node, prev, path, 0);
        assert(t == (Turn { from_seg: prev, at: node, to_seg: path[0] }));
        if too_sharp(t, max_turn, turn) {
            assert(first =~= seq![
                SharpTurnPoint {
                    node,
                    from_segment: prev,
                    to_segment: path[0],
                    deviation_microdeg: turn(t)->Some_0,
                },
            ]);
        } else {
            assert(first =~= Seq::empty());
        }
    }
}

/// The question that a connection is probed with: for a path on roads of every class under
/// a turn limit.
pub open spec fn probe(
    from_node: NodeId,
    from_seg: SegmentId,
    to_node: NodeId,
    max_turn: u32,
    zoom: u8,
) -> PathQuery {
    PathQuery {
        from_node,
        from_seg,
        to_node,
        lowest_frc: 7,
        max_turn_microdeg: max_turn,
        frc_tolerance: 0,
        zoom,
    }
}

/// A diagnosis says what the two searches found: the first under the turn limit, and where
/// that finds no path, the second under half a turn, which is no limit. A connection that is
/// there under the limit is there without one and as long.
pub proof fn law_diagnosis_says_what_the_searches_found(
    g: GraphModel,
    from_node: NodeId,
    from_seg: SegmentId,
    to_node: NodeId,
    max_turn: u32,
    zoom: u8,
    search: spec_fn(PathQuery) -> PathModel,
    turn: spec_fn(Turn) -> Option<u32>,
)
    ensures
        ({
            let d = diagnosis(g, from_node, from_seg, to_node, max_turn, zoom, search, turn);
            let limited = search(probe(from_node, from_seg, to_node, max_turn, zoom));
            let free = search(probe(from_node, from_seg, to_node, 180_000_000, zoom));
            match (limited, free) {
                (PathModel::Found { segments, length_cm }, _) => {
                    &&& d.connected_within_cap
                    &&& d.length_within_cap_cm == Some(length_cm)
                    &&& d.connected_unrestricted
                    &&& d.length_unrestricted_cm == Some(length_cm)
                    &&& !d.blocked_by_turn_angle
                    &&& d.sharp_turns.len() == 0
                    &&& d.needs_tile is None
                },
                (PathModel::NoPath, PathModel::Found { segments, length_cm }) => {
                    &&& !d.connected_within_cap
                    &&& d.length_within_cap_cm is None
                    &&& d.connected_unrestricted
                    &&& d.length_unrestricted_cm == Some(length_cm)
                    &&& d.blocked_by_turn_angle
                    &&& g.walk_end(from_node, segments) is Some ==> d.sharp_turns == sharp_among(
                        g,
                        from_node,
                        from_seg,
                        segments,
                        segments.len() as int,
                        max_turn,
                        turn,
                    )
                    &&& d.needs_tile is None
                },
                (PathModel::NeedsTile(k), _) | (PathModel::NoPath, PathModel::NeedsTile(k)) => {
                    &&& !d.connected_within_cap && !d.connected_unrestricted
                    &&& d.length_within_cap_cm is None && d.length_unrestricted_cm is None
                    &&& !d.blocked_by_turn_angle
                    &&& d.sharp_turns.len() == 0
                    &&& d.needs_tile == Some(k)
                },
                (PathModel::NoPath, PathModel::NoPath) => {
                    &&& !d.connected_within_cap && !d.connected_unrestricted
                    &&& d.length_within_cap_cm is None && d.length_unrestricted_cm is None
                    &&& !d.blocked_by_turn_angle
                    &&& d.sharp_turns.len() == 0
                    &&& d.needs_tile is None
                },
            }
        }),
{
    if let PathModel::Found { segments, length_cm } = search(
        probe(from_node, from_seg, to_node, 180_000_000, zoom),
    ) {
        if g.walk_end(from_node, segments) is Some {
            law_every_sharp_turn_is_named(g, from_node, from_seg, segments, max_turn, turn);
        }
    }
}

} // verus!
