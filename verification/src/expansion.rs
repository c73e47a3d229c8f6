//! Walking outward from an end of a location to the nearest node where a location
//! reference may have a point. Expansion only ever walks away from the location.
use vstd::prelude::*;

use crate::graph::{Graph, GraphModel, NodeId, SegmentId};
use crate::oracle::{answer, lemma_answer, settled};

verus! {

/// A turn: from one segment, at a node, into another segment.
#[derive(Debug, Clone, Copy, PartialEq, Eq, Structural)]
pub struct Turn {
    pub from_seg: SegmentId,
    pub at: NodeId,
    pub to_seg: SegmentId,
}

/// Why `expand_to_valid_node` stopped where it did.
#[derive(Debug, Clone, Copy, PartialEq, Eq, Structural)]
pub enum ExpansionStopReason {
    /// The start was valid already: no walk was needed.
    AlreadyValid,
    /// The walk came to a valid node.
    ReachedValidNode,
    /// No segment but the one just walked touches the node, which is not valid.
    DeadEnd,
    /// The next segment would have made the walk too long.
    BudgetExhausted,
    /// The next turn is sharper than allowed.
    SharpTurn { deviation_microdeg: u32 },
}

/// Where a walk outward from one end of a location ended.
#[derive(Debug)]
pub struct Expansion {
    pub node: NodeId,
    /// How far the walk went, in centimetres.
    pub distance_cm: u64,
    /// The segments walked, in this order.
    pub segments: Vec<SegmentId>,
    /// Why the walk stopped. The node is valid only if this is `AlreadyValid` or
    /// `ReachedValidNode`.
    pub stopped: ExpansionStopReason,
}

/// What an `Expansion` holds.
#[verifier::ext_equal]
pub struct ExpansionModel {
    pub node: NodeId,
    pub distance_cm: int,
    pub segments: Seq<SegmentId>,
    pub stopped: ExpansionStopReason,
}

impl View for Expansion {
    type V = ExpansionModel;

    open spec fn view(&self) -> ExpansionModel {
        ExpansionModel {
            node: self.node,
            distance_cm: self.distance_cm as int,
            segments: self.segments@,
            stopped: self.stopped,
        }
    }
}

/// The place of the first segment in `around` other than `skip`.
pub open spec fn first_other(around: Seq<(NodeId, SegmentId)>, skip: SegmentId) -> Option<int>
    decreases around.len(),
{
    if around.len() == 0 {
        None
    } else {
        match first_other(around.drop_last(), skip) {
            Some(k) => Some(k),
            None => if around.last().1 != skip {
                Some(around.len() - 1)
            } else {
                None
            },
        }
    }
}

/// Where the oldest segment other than `skip` leads from `n`: its far end, itself and
/// its length.
pub open spec fn hop(g: GraphModel, n: NodeId, skip: SegmentId) -> Option<
    (NodeId, SegmentId, int),
> {
    let around = g.neighbors(n);
    match first_other(around, skip) {
        Some(k) => if g.segments.contains_key(around[k].1.0) {
            Some((around[k].0, around[k].1, g.segments[around[k].1.0].length_cm as int))
        } else {
            None
        },
        None => None,
    }
}

/// A walk under way.
#[verifier::ext_equal]
pub struct Walk {
    pub node: NodeId,
    /// The segment just walked, or the one not to walk at the start.
    pub skip: SegmentId,
    pub distance_cm: int,
    pub segments: Seq<SegmentId>,
}

/// One step of a walk: the walk after it, and why the walk stops if it does.
pub open spec fn stride(
    g: GraphModel,
    w: Walk,
    max_cm: int,
    max_turn: u32,
    turn: spec_fn(Turn) -> Option<u32>,
) -> (Walk, Option<ExpansionStopReason>) {
    match hop(g, w.node, w.skip) {
        None => (w, Some(ExpansionStopReason::DeadEnd)),
        Some((node, seg, len)) => {
            let dev = turn(Turn { from_seg: w.skip, at: w.node, to_seg: seg });
            if w.distance_cm + len > max_cm {
                (w, Some(ExpansionStopReason::BudgetExhausted))
            } else if dev is Some && dev->Some_0 > max_turn {
                (
                    w,
                    Some(ExpansionStopReason::SharpTurn { deviation_microdeg: dev->Some_0 }),
                )
            } else {
                let next = Walk {
                    node,
                    skip: seg,
                    distance_cm: w.distance_cm + len,
                    segments: w.segments.push(seg),
                };
                (
                    next,
                    if g.valid_node(node) {
                        Some(ExpansionStopReason::ReachedValidNode)
                    } else {
                        None
                    },
                )
            }
        },
    }
}

/// A walk after `n` steps, or where it stopped before that.
pub open spec fn walk(
    g: GraphModel,
    w: Walk,
    max_cm: int,
    max_turn: u32,
    turn: spec_fn(Turn) -> Option<u32>,
    n: nat,
) -> (Walk, Option<ExpansionStopReason>)
    decreases n,
{
    if n == 0 {
        (w, None)
    } else {
        let (v, stop) = walk(g, w, max_cm, max_turn, turn, (n - 1) as nat);
        match stop {
            Some(r) => (v, Some(r)),
            None => stride(g, v, max_cm, max_turn, turn),
        }
    }
}

/// The start of a walk from `start` that does not enter `skip`.
pub open spec fn outset(start: NodeId, skip: SegmentId) -> Walk {
    Walk { node: start, skip, distance_cm: 0, segments: Seq::empty() }
}

/// Whether `e` is the outcome of the expansion of `start`: nothing is walked from a
/// valid node, and otherwise the walk goes on until it stops.
pub open spec fn expanded(
    g: GraphModel,
    start: NodeId,
    skip: SegmentId,
    max_cm: int,
    max_turn: u32,
    turn: spec_fn(Turn) -> Option<u32>,
    e: ExpansionModel,
) -> bool {
    if g.valid_node(start) {
        e == ExpansionModel {
            node: start,
            distance_cm: 0,
            segments: Seq::empty(),
            stopped: ExpansionStopReason::AlreadyValid,
        }
    } else {
        exists|n: nat| stops_at(g, outset(start, skip), max_cm, max_turn, turn, n, e)
    }
}

/// Whether a walk stops within `n` steps, with outcome `e`.
pub open spec fn stops_at(
    g: GraphModel,
    w: Walk,
    max_cm: int,
    max_turn: u32,
    turn: spec_fn(Turn) -> Option<u32>,
    n: nat,
    e: ExpansionModel,
) -> bool {
    let (v, stop) = walk(g, w, max_cm, max_turn, turn, n);
    &&& stop == Some(e.stopped)
    &&& e.node == v.node
    &&& e.distance_cm == v.distance_cm
    &&& e.segments == v.segments
}

/// A turn measure that knows of no turn.
pub open spec fn no_turns() -> spec_fn(Turn) -> Option<u32> {
    |t: Turn| None
}

/// How far turns deviate from straight on, in millionths of a degree, as `turn` tells.
pub open spec fn turns_by<F: Fn(Turn) -> Option<u32>>(turn: F) -> spec_fn(Turn) -> Option<u32> {
    |t: Turn| answer(turn, t)
}

/// Whether the walk stops at all: under the turn limit, or even without one. (A walk
/// around a circle of pass-through nodes whose segments have no length would go on
/// for ever.)
pub open spec fn walk_ends<F: Fn(Turn) -> Option<u32>>(
    g: GraphModel,
    start: NodeId,
    skip: SegmentId,
    max_cm: int,
    max_turn: u32,
    turn: F,
) -> bool {
    ||| g.valid_node(start)
    ||| settled(turn) && exists|n: nat|
        (#[trigger] walk(
            g,
            outset(start, skip),
            max_cm,
            max_turn,
            turns_by(turn),
            n,
        )).1 is Some
    ||| exists|n: nat|
        (#[trigger] walk(g, outset(start, skip), max_cm, max_turn, no_turns(), n)).1 is Some
}

proof fn lemma_walk_stays(
    g: GraphModel,
    w: Walk,
    max_cm: int,
    max_turn: u32,
    turn: spec_fn(Turn) -> Option<u32>,
    k: nat,
    n: nat,
)
    requires
        k <= n,
        walk(g, w, max_cm, max_turn, turn, k).1 is Some,
    ensures
        walk(g, w, max_cm, max_turn, turn, n) == walk(g, w, max_cm, max_turn, turn, k),
    decreases n - k,
{
    if k < n {
        lemma_walk_stays(g, w, max_cm, max_turn, turn, k, (n - 1) as nat);
    }
}

proof fn lemma_first_other(around: Seq<(NodeId, SegmentId)>, skip: SegmentId, k: int)
    requires
        0 <= k <= around.len(),
    ensures
        first_other(around, skip) matches Some(j) ==> 0 <= j < around.len(),
        first_other(around.take(k), skip) is Some ==> first_other(around, skip) == first_other(
            around.take(k),
            skip,
        ),
    decreases around.len(),
{
    if around.len() > 0 {
        let p = around.drop_last();
        if k < around.len() {
            lemma_first_other(p, skip, k);
            assert(p.take(k) =~= around.take(k));
        } else {
            lemma_first_other(p, skip, p.len() as int);
            assert(around.take(k) =~= around);
        }
    }
}

/// Where the oldest segment other than `skip` leads from `node`: its far end, itself
/// and its length.
pub fn next_hop(graph: &Graph, node: NodeId, skip: SegmentId) -> (r: Option<
    (NodeId, SegmentId, u32),
>)
    requires
        graph@.wf(),
    ensures
        (match r {
            Some((n, s, len)) => hop(graph@, node, skip) == Some((n, s, len as int)),
            None => hop(graph@, node, skip) is None,
        }),
{
    let around: Vec<(NodeId, SegmentId)> = graph.topology_neighbors(node);
    let mut i: usize = 0;
    while i < around.len()
        invariant
            i <= around@.len(),
            around@ == graph@.neighbors(node),
            first_other(around@.take(i as int), skip) is None,
        decreases around@.len() - i,
    {
        assert(around@.take(i + 1).drop_last() =~= around@.take(i as int));
        let (other, seg): (NodeId, SegmentId) = around[i];
        if seg != skip {
            proof {
                lemma_first_other(around@, skip, i + 1);
            }
            return match graph.segment(seg) {
                Some(s) => Some((other, seg, s.length_cm)),
                None => None,
            };
        }
        i += 1;
    }
    assert(around@.take(i as int) =~= around@);
    None
}

/// Walk outward from `start` until a valid node is reached, or until the walk would
/// become longer than `max_leg_cm`, meets a dead end, or meets a turn sharper than
/// `max_turn_microdeg`: a location reference would have to take that turn as well, so
/// the walk stops before it and the node it stands at is accepted as it is.
///
/// `skip_seg` is the segment by which the location goes on from `start`: the walk does
/// not enter it. `turn` tells how far a turn deviates from straight on, in millionths of
/// a degree, where that can be told.
pub fn expand_to_valid_node<F: Fn(Turn) -> Option<u32>>(
    graph: &Graph,
    start: NodeId,
    skip_seg: SegmentId,
    max_leg_cm: u64,
    max_turn_microdeg: u32,
    turn: &F,
) -> (e: Expansion)
    requires
        graph@.wf(),
        forall|t: Turn| call_requires(*turn, (t,)),
        walk_ends(graph@, start, skip_seg, max_leg_cm as int, max_turn_microdeg, *turn),
    ensures
        e.distance_cm <= max_leg_cm,
        graph@.valid_node(start) <==> e.stopped == ExpansionStopReason::AlreadyValid,
        graph@.valid_node(e.node) <== e.stopped == ExpansionStopReason::ReachedValidNode,
        settled(*turn) ==> expanded(
            graph@,
            start,
            skip_seg,
            max_leg_cm as int,
            max_turn_microdeg,
            turns_by(*turn),
            e@,
        ),
{
    if graph.is_valid_node(start) {
        return Expansion {
            node: start,
            distance_cm: 0,
            segments: Vec::new(),
            stopped: ExpansionStopReason::AlreadyValid,
        };
    }
    let ghost g = graph@;
    let ghost max = max_leg_cm as int;
    let ghost cap = max_turn_microdeg;
    let ghost w0 = outset(start, skip_seg);
    let ghost ask = turns_by(*turn);
    let ghost guided = settled(*turn) && exists|n: nat|
        (#[trigger] walk(g, w0, max, cap, ask, n)).1 is Some;
    let ghost bound: nat = if guided {
        choose|n: nat| (#[trigger] walk(g, w0, max, cap, ask, n)).1 is Some
    } else {
        choose|n: nat| (#[trigger] walk(g, w0, max, cap, no_turns(), n)).1 is Some
    };
    let ghost mut k: nat = 0;
    let mut node: NodeId = start;
    let mut skip: SegmentId = skip_seg;
    let mut distance_cm: u64 = 0;
    let mut segments: Vec<SegmentId> = Vec::new();
    loop
        invariant
            g == graph@,
            g.wf(),
            max == max_leg_cm,
            cap == max_turn_microdeg,
            w0 == outset(start, skip_seg),
            !g.valid_node(start),
            ask == turns_by(*turn),
            forall|t: Turn| call_requires(*turn, (t,)),
            distance_cm <= max_leg_cm,
            guided ==> settled(*turn) && walk(g, w0, max, cap, ask, bound).1 is Some,
            !guided ==> walk(g, w0, max, cap, no_turns(), bound).1 is Some,
            settled(*turn) ==> walk(g, w0, max, cap, ask, k) == (
                Walk { node, skip, distance_cm: distance_cm as int, segments: segments@ },
                None::<ExpansionStopReason>,
            ),
            !guided ==> walk(g, w0, max, cap, no_turns(), k) == (
                Walk { node, skip, distance_cm: distance_cm as int, segments: segments@ },
                None::<ExpansionStopReason>,
            ),
            k <= bound,
        decreases bound - k,
    {
        proof {
            if k == bound {
                assert(false);
            }
        }
        let (next_node, next_seg, seg_len): (NodeId, SegmentId, u32) = match next_hop(
            graph,
            node,
            skip,
        ) {
            Some(h) => h,
            None => {
                let e = Expansion {
                    node,
                    distance_cm,
                    segments,
                    stopped: ExpansionStopReason::DeadEnd,
                };
                assert(settled(*turn) ==> stops_at(g, w0, max, cap, ask, k + 1, e@));
                return e;
            },
        };
        if distance_cm as u128 + seg_len as u128 > max_leg_cm as u128 {
            let e = Expansion {
                node,
                distance_cm,
                segments,
                stopped: ExpansionStopReason::BudgetExhausted,
            };
            assert(settled(*turn) ==> stops_at(g, w0, max, cap, ask, k + 1, e@));
            return e;
        }
        let question = Turn { from_seg: skip, at: node, to_seg: next_seg };
        let dev: Option<u32> = turn(question);
        proof {
            lemma_answer(*turn, question, dev);
        }
        match dev {
            Some(d) => {
                if d > max_turn_microdeg {
                    let e = Expansion {
                        node,
                        distance_cm,
                        segments,
                        stopped: ExpansionStopReason::SharpTurn { deviation_microdeg: d },
                    };
                    assert(settled(*turn) ==> stops_at(g, w0, max, cap, ask, k + 1, e@));
                    return e;
                }
            },
            None => {},
        }
        distance_cm = distance_cm + seg_len as u64;
        node = next_node;
        skip = next_seg;
        segments.push(next_seg);
        if graph.is_valid_node(node) {
            let e = Expansion {
                node,
                distance_cm,
                segments,
                stopped: ExpansionStopReason::ReachedValidNode,
            };
            assert(settled(*turn) ==> stops_at(g, w0, max, cap, ask, k + 1, e@));
            return e;
        }
        proof {
            k = k + 1;
            if k > bound {
                assert(false);
            }
        }
    }
}

/// An expansion has one outcome.
pub proof fn law_expansion_is_unique(
    g: GraphModel,
    start: NodeId,
    skip: SegmentId,
    max_cm: int,
    max_turn: u32,
    turn: spec_fn(Turn) -> Option<u32>,
    e: ExpansionModel,
    f: ExpansionModel,
)
    requires
        expanded(g, start, skip, max_cm, max_turn, turn, e),
        expanded(g, start, skip, max_cm, max_turn, turn, f),
    ensures
        e == f,
{
    if !g.valid_node(start) {
        let w = outset(start, skip);
        let n = choose|n: nat| stops_at(g, w, max_cm, max_turn, turn, n, e);
        let m = choose|m: nat| stops_at(g, w, max_cm, max_turn, turn, m, f);
        if n <= m {
            lemma_walk_stays(g, w, max_cm, max_turn, turn, n, m);
        } else {
            lemma_walk_stays(g, w, max_cm, max_turn, turn, m, n);
        }
        assert(e =~= f);
    }
}

/// The outcome of the expansion of `start`.
pub open spec fn expansion_of(
    g: GraphModel,
    start: NodeId,
    skip: SegmentId,
    max_cm: int,
    max_turn: u32,
    turn: spec_fn(Turn) -> Option<u32>,
) -> ExpansionModel {
    choose|e: ExpansionModel| expanded(g, start, skip, max_cm, max_turn, turn, e)
}

/// What is an outcome of the expansion is the outcome.
pub proof fn lemma_expansion_of(
    g: GraphModel,
    start: NodeId,
    skip: SegmentId,
    max_cm: int,
    max_turn: u32,
    turn: spec_fn(Turn) -> Option<u32>,
    e: ExpansionModel,
)
    requires
        expanded(g, start, skip, max_cm, max_turn, turn, e),
    ensures
        e == expansion_of(g, start, skip, max_cm, max_turn, turn),
{
    law_expansion_is_unique(
        g,
        start,
        skip,
        max_cm,
        max_turn,
        turn,
        e,
        expansion_of(g, start, skip, max_cm, max_turn, turn),
    );
}

/// The total length of some segments.
pub open spec fn total_length(g: GraphModel, path: Seq<SegmentId>) -> int
    decreases path.len(),
{
    if path.len() == 0 {
        0
    } else {
        total_length(g, path.drop_last()) + g.segments[path.last().0].length_cm
    }
}

proof fn lemma_hop(g: GraphModel, n: NodeId, skip: SegmentId)
    requires
        g.wf(),
    ensures
        hop(g, n, skip) matches Some((m, s, len)) ==> s != skip && g.other_end(s, n) == Some(m)
            && len == g.segments[s.0].length_cm,
{
    let around = g.neighbors(n);
    lemma_first_other(around, skip, around.len() as int);
    lemma_first_other_differs(around, skip);
    match first_other(around, skip) {
        Some(k) => {
            let ids = crate::graph::touching_at(g.touching, n);
            assert(ids.contains(ids[k]));
        },
        None => {},
    }
}

proof fn lemma_first_other_differs(around: Seq<(NodeId, SegmentId)>, skip: SegmentId)
    ensures
        first_other(around, skip) matches Some(k) ==> 0 <= k < around.len() && around[k].1 != skip,
    decreases around.len(),
{
    if around.len() > 0 {
        lemma_first_other_differs(around.drop_last(), skip);
    }
}

proof fn lemma_walk_path(
    g: GraphModel,
    start: NodeId,
    skip: SegmentId,
    max_cm: int,
    max_turn: u32,
    turn: spec_fn(Turn) -> Option<u32>,
    n: nat,
)
    requires
        g.wf(),
        0 <= max_cm,
        !g.valid_node(start),
    ensures
        ({
            let (v, stop) = walk(g, outset(start, skip), max_cm, max_turn, turn, n);
            &&& g.walk_end(start, v.segments) == Some(v.node)
            &&& v.distance_cm == total_length(g, v.segments)
            &&& v.distance_cm <= max_cm
            &&& stop == Some(ExpansionStopReason::ReachedValidNode) <==> g.valid_node(v.node)
            &&& stop != Some(ExpansionStopReason::AlreadyValid)
            &&& v.skip == before_step(v.segments, skip, v.segments.len() as int)
            &&& well_stepped(g, start, skip, max_turn, turn, v.segments)
        }),
    decreases n,
{
    if n > 0 {
        lemma_walk_path(g, start, skip, max_cm, max_turn, turn, (n - 1) as nat);
        let (v, stop) = walk(g, outset(start, skip), max_cm, max_turn, turn, (n - 1) as nat);
        if stop is None {
            lemma_hop(g, v.node, v.skip);
            match hop(g, v.node, v.skip) {
                Some((m, s, len)) => {
                    let longer = v.segments.push(s);
                    assert(longer.drop_last() =~= v.segments);
                    if well_turned(v.skip, v.node, s, max_turn, turn) {
                        lemma_well_stepped(g, start, skip, max_turn, turn, v.segments, v.node, s);
                    }
                },
                None => {},
            }
        }
    }
}

/// The segment before step `i` of a walk: `skip` before the first.
pub open spec fn before_step(path: Seq<SegmentId>, skip: SegmentId, i: int) -> SegmentId {
    if i <= 0 {
        skip
    } else {
        path[i - 1]
    }
}

/// Whether a step from a node into a segment does not go back into the segment before it,
/// nor takes a turn sharper than allowed.
pub open spec fn well_turned(
    before: SegmentId,
    at: NodeId,
    s: SegmentId,
    max_turn: u32,
    turn: spec_fn(Turn) -> Option<u32>,
) -> bool {
    &&& s != before
    &&& turn(Turn { from_seg: before, at, to_seg: s }) matches Some(d) ==> d <= max_turn
}

/// Whether every step of a walk leaves a node that is not valid, does not go back into the
/// segment before it (`skip` before the first), and takes no turn sharper than allowed.
pub open spec fn well_stepped(
    g: GraphModel,
    start: NodeId,
    skip: SegmentId,
    max_turn: u32,
    turn: spec_fn(Turn) -> Option<u32>,
    path: Seq<SegmentId>,
) -> bool {
    forall|i: int|
        0 <= i < path.len() ==> (match g.walk_end(start, #[trigger] path.take(i)) {
            Some(at) => !g.valid_node(at) && well_turned(
                before_step(path, skip, i),
                at,
                path[i],
                max_turn,
                turn,
            ),
            None => false,
        })
}

proof fn lemma_well_stepped(
    g: GraphModel,
    start: NodeId,
    skip: SegmentId,
    max_turn: u32,
    turn: spec_fn(Turn) -> Option<u32>,
    path: Seq<SegmentId>,
    at: NodeId,
    s: SegmentId,
)
    requires
        well_stepped(g, start, skip, max_turn, turn, path),
        g.walk_end(start, path) == Some(at),
        !g.valid_node(at),
        well_turned(before_step(path, skip, path.len() as int), at, s, max_turn, turn),
    ensures
        well_stepped(g, start, skip, max_turn, turn, path.push(s)),
{
    let longer = path.push(s);
    assert forall|i: int| 0 <= i < longer.len() implies (match g.walk_end(
        start,
        #[trigger] longer.take(i),
    ) {
        Some(n) => !g.valid_node(n) && well_turned(
            before_step(longer, skip, i),
            n,
            longer[i],
            max_turn,
            turn,
        ),
        None => false,
    }) by {
        if i < path.len() {
            assert(longer.take(i) =~= path.take(i));
        } else {
            assert(longer.take(i) =~= path);
        }
    }
}

/// An expansion walks a connected path from the start to where it ends. The first segment
/// is not the one to skip, and no segment is walked twice in a row; every node that is
/// left is not valid, and every turn is within the limit. The distance is the length of
/// the path and never more than allowed. The node where the walk ends is valid just where
/// the walk says so.
pub proof fn law_expansion_walks_a_path(
    g: GraphModel,
    start: NodeId,
    skip: SegmentId,
    max_cm: int,
    max_turn: u32,
    turn: spec_fn(Turn) -> Option<u32>,
    e: ExpansionModel,
)
    requires
        g.wf(),
        0 <= max_cm,
        expanded(g, start, skip, max_cm, max_turn, turn, e),
    ensures
        g.walk_end(start, e.segments) == Some(e.node),
        e.distance_cm == total_length(g, e.segments),
        e.distance_cm <= max_cm,
        well_stepped(g, start, skip, max_turn, turn, e.segments),
        e.stopped == ExpansionStopReason::AlreadyValid || e.stopped
            == ExpansionStopReason::ReachedValidNode <==> g.valid_node(e.node),
{
    if !g.valid_node(start) {
        let n = choose|n: nat|
            stops_at(g, outset(start, skip), max_cm, max_turn, turn, n, e);
        lemma_walk_path(g, start, skip, max_cm, max_turn, turn, n);
    }
}

proof fn lemma_walk_advances(
    g: GraphModel,
    w: Walk,
    max_cm: int,
    max_turn: u32,
    turn: spec_fn(Turn) -> Option<u32>,
    n: nat,
)
    requires
        g.wf(),
        w.distance_cm >= 0,
        forall|k: u32| #[trigger] g.segments.contains_key(k) ==> g.segments[k].length_cm > 0,
    ensures
        ({
            let (v, stop) = walk(g, w, max_cm, max_turn, turn, n);
            stop is None ==> v.distance_cm >= n && (n > 0 ==> v.distance_cm <= max_cm)
        }),
    decreases n,
{
    if n > 0 {
        lemma_walk_advances(g, w, max_cm, max_turn, turn, (n - 1) as nat);
        let (v, stop) = walk(g, w, max_cm, max_turn, turn, (n - 1) as nat);
        if stop is None {
            lemma_hop(g, v.node, v.skip);
        }
    }
}

/// Where every segment has a length, every walk ends, whatever the turns.
pub proof fn law_walks_end_where_segments_have_length<F: Fn(Turn) -> Option<u32>>(
    g: GraphModel,
    start: NodeId,
    skip: SegmentId,
    max_cm: int,
    max_turn: u32,
    turn: F,
)
    requires
        g.wf(),
        0 <= max_cm,
        forall|k: u32| #[trigger] g.segments.contains_key(k) ==> g.segments[k].length_cm > 0,
    ensures
        walk_ends(g, start, skip, max_cm, max_turn, turn),
{
    let n = (max_cm + 1) as nat;
    lemma_walk_advances(g, outset(start, skip), max_cm, max_turn, no_turns(), n);
    assert(walk(g, outset(start, skip), max_cm, max_turn, no_turns(), n).1 is Some);
}

/// Whether `s` is where a walk that came to `n` over `before` goes on: the oldest of the
/// segments at `n` that is not `before`.
pub open spec fn leads_on(g: GraphModel, n: NodeId, before: SegmentId, s: SegmentId) -> bool {
    &&& g.touching.contains_key(n.0)
    &&& exists|k: int|
        {
            &&& 0 <= k < g.touching[n.0].len()
            &&& #[trigger] g.touching[n.0][k] == s
            &&& s != before
            &&& forall|j: int| 0 <= j < k ==> #[trigger] g.touching[n.0][j] == before
        }
}

/// Whether segment `s` is there and has an end at `n`.
pub open spec fn ends_at(g: GraphModel, s: SegmentId, n: NodeId) -> bool {
    g.segments.contains_key(s.0) && (g.segments[s.0].start_node == n || g.segments[s.0].end_node
        == n)
}

proof fn lemma_first_other_is_oldest(around: Seq<(NodeId, SegmentId)>, skip: SegmentId)
    ensures
        (match first_other(around, skip) {
            Some(k) => 0 <= k < around.len() && around[k].1 != skip && forall|j: int|
                0 <= j < k ==> (#[trigger] around[j]).1 == skip,
            None => forall|j: int| 0 <= j < around.len() ==> (#[trigger] around[j]).1 == skip,
        }),
    decreases around.len(),
{
    if around.len() > 0 {
        let p = around.drop_last();
        lemma_first_other_is_oldest(p, skip);
        assert forall|j: int| 0 <= j < p.len() implies p[j] == around[j] by {}
        match first_other(p, skip) {
            Some(k) => {
                assert forall|j: int| 0 <= j < k implies (#[trigger] around[j]).1 == skip by {
                    assert(p[j].1 == skip);
                }
            },
            None => {
                assert forall|j: int| 0 <= j < p.len() implies (#[trigger] around[j]).1
                    == skip by {
                    assert(p[j].1 == skip);
                }
            },
        }
    }
}

proof fn lemma_hop_leads_on(g: GraphModel, n: NodeId, skip: SegmentId)
    requires
        g.wf(),
    ensures
        (match hop(g, n, skip) {
            Some((_, s, len)) => leads_on(g, n, skip, s) && ends_at(g, s, n) && len
                == g.segments[s.0].length_cm,
            None => forall|s: SegmentId| #[trigger] ends_at(g, s, n) ==> s == skip,
        }),
{
    let around = g.neighbors(n);
    let ids = crate::graph::touching_at(g.touching, n);
    lemma_first_other_is_oldest(around, skip);
    match first_other(around, skip) {
        Some(k) => {
            assert(ids.contains(ids[k]));
            assert(ends_at(g, ids[k], n));
            assert forall|j: int| 0 <= j < k implies #[trigger] g.touching[n.0][j] == skip by {
                assert(around[j].1 == skip);
            }
            assert(g.touching[n.0][k] == ids[k]);
        },
        None => {
            assert forall|s: SegmentId| #[trigger] ends_at(g, s, n) implies s == skip by {
                assert(ids.contains(s));
                let j = choose|j: int| 0 <= j < ids.len() && ids[j] == s;
                assert(around[j].1 == skip);
            }
        },
    }
}

/// Whether every step of a walk takes the oldest way on from where it stands.
pub open spec fn follows_the_oldest(
    g: GraphModel,
    start: NodeId,
    skip: SegmentId,
    path: Seq<SegmentId>,
) -> bool {
    forall|i: int|
        0 <= i < path.len() ==> (match g.walk_end(start, #[trigger] path.take(i)) {
            Some(at) => leads_on(g, at, before_step(path, skip, i), path[i]),
            None => false,
        })
}

/// Whether a walk that has come to `at` over `before`, `distance_cm` long, has the reason
/// to stop that it names.
pub open spec fn has_reason(
    g: GraphModel,
    at: NodeId,
    before: SegmentId,
    distance_cm: int,
    max_cm: int,
    max_turn: u32,
    turn: spec_fn(Turn) -> Option<u32>,
    stopped: ExpansionStopReason,
) -> bool {
    match stopped {
        ExpansionStopReason::AlreadyValid => g.valid_node(at),
        ExpansionStopReason::ReachedValidNode => g.valid_node(at),
        ExpansionStopReason::DeadEnd => forall|s: SegmentId| #[trigger]
            ends_at(g, s, at) ==> s == before,
        ExpansionStopReason::BudgetExhausted => exists|s: SegmentId| #[trigger]
            leads_on(g, at, before, s) && ends_at(g, s, at) && distance_cm
                + g.segments[s.0].length_cm > max_cm,
        ExpansionStopReason::SharpTurn { deviation_microdeg } => exists|s: SegmentId| #[trigger]
            leads_on(g, at, before, s) && ends_at(g, s, at) && distance_cm
                + g.segments[s.0].length_cm <= max_cm && turn(
                Turn { from_seg: before, at, to_seg: s },
            ) == Some(deviation_microdeg) && deviation_microdeg > max_turn,
    }
}

proof fn lemma_walk_has_reason(
    g: GraphModel,
    start: NodeId,
    skip: SegmentId,
    max_cm: int,
    max_turn: u32,
    turn: spec_fn(Turn) -> Option<u32>,
    n: nat,
)
    requires
        g.wf(),
        0 <= max_cm,
        !g.valid_node(start),
    ensures
        ({
            let (v, stop) = walk(g, outset(start, skip), max_cm, max_turn, turn, n);
            &&& follows_the_oldest(g, start, skip, v.segments)
            &&& stop matches Some(r) ==> has_reason(
                g,
                v.node,
                v.skip,
                v.distance_cm,
                max_cm,
                max_turn,
                turn,
                r,
            )
            &&& stop == Some(ExpansionStopReason::ReachedValidNode) ==> v.segments.len() > 0
        }),
    decreases n,
{
    if n > 0 {
        lemma_walk_has_reason(g, start, skip, max_cm, max_turn, turn, (n - 1) as nat);
        lemma_walk_path(g, start, skip, max_cm, max_turn, turn, (n - 1) as nat);
        let (v, stop) = walk(g, outset(start, skip), max_cm, max_turn, turn, (n - 1) as nat);
        if stop is None {
            lemma_hop_leads_on(g, v.node, v.skip);
            match hop(g, v.node, v.skip) {
                Some((m, s, len)) => {
                    let longer = v.segments.push(s);
                    assert forall|i: int| 0 <= i < longer.len() implies (match g.walk_end(
                        start,
                        #[trigger] longer.take(i),
                    ) {
                        Some(at) => leads_on(g, at, before_step(longer, skip, i), longer[i]),
                        None => false,
                    }) by {
                        if i < v.segments.len() {
                            assert(longer.take(i) =~= v.segments.take(i));
                        } else {
                            assert(longer.take(i) =~= v.segments);
                        }
                    }
                },
                None => {},
            }
        }
    }
}

/// An expansion stops only for the reason that it names, and walks as long as there is
/// none. From a valid node nothing is walked, and only from there. A walk that reached a
/// valid node walked something. Where the budget is exhausted, the oldest segment at the
/// node other than the one just walked would have made the walk longer than allowed; at a
/// dead end there is no such segment; at a sharp turn the turn into it is the one named,
/// and sharper than allowed.
pub proof fn law_expansion_stops_for_its_reason(
    g: GraphModel,
    start: NodeId,
    skip: SegmentId,
    max_cm: int,
    max_turn: u32,
    turn: spec_fn(Turn) -> Option<u32>,
    e: ExpansionModel,
)
    requires
        g.wf(),
        0 <= max_cm,
        expanded(g, start, skip, max_cm, max_turn, turn, e),
    ensures
        e.stopped == ExpansionStopReason::AlreadyValid <==> g.valid_node(start),
        e.stopped == ExpansionStopReason::AlreadyValid ==> e.segments.len() == 0 && e.node
            == start && e.distance_cm == 0,
        e.stopped == ExpansionStopReason::ReachedValidNode ==> e.segments.len() > 0,
        has_reason(
            g,
            e.node,
            before_step(e.segments, skip, e.segments.len() as int),
            e.distance_cm,
            max_cm,
            max_turn,
            turn,
            e.stopped,
        ),
        follows_the_oldest(g, start, skip, e.segments),
{
    if !g.valid_node(start) {
        let n = choose|n: nat|
            stops_at(g, outset(start, skip), max_cm, max_turn, turn, n, e);
        lemma_walk_path(g, start, skip, max_cm, max_turn, turn, n);
        lemma_walk_has_reason(g, start, skip, max_cm, max_turn, turn, n);
    }
}

} // verus!
