//! No two consecutive points of a location reference may be more than a fixed
//! distance apart. A leg that is longer is cut at points along its path.
use vstd::prelude::*;

use crate::encode_error::EncodeError;
use crate::expansion::total_length;
use crate::graph::{Graph, GraphModel, NodeId, SegmentId};

verus! {

/// Where a leg starts: at a node, or partway into a segment.
#[derive(Debug, Clone, Copy, PartialEq, Eq, Structural)]
pub enum LrpAnchor {
    Node(NodeId),
    Virtual {
        segment: SegmentId,
        /// The end of `segment` by which the leg enters it.
        entry_node: NodeId,
        /// The distance from `entry_node` along `segment`, in centimetres.
        dist_from_entry_cm: u64,
    },
}

/// A piece of a path between two consecutive points of a location reference.
#[derive(Debug)]
pub struct Leg {
    pub start: LrpAnchor,
    pub segments: Vec<SegmentId>,
    pub length_cm: u64,
}

/// What a `Leg` holds.
#[verifier::ext_equal]
pub struct LegModel {
    pub start: LrpAnchor,
    pub segments: Seq<SegmentId>,
    pub length_cm: int,
}

impl View for Leg {
    type V = LegModel;

    open spec fn view(&self) -> LegModel {
        LegModel {
            start: self.start,
            segments: self.segments@,
            length_cm: self.length_cm as int,
        }
    }
}

/// The models of some legs.
pub open spec fn leg_models(v: Seq<Leg>) -> Seq<LegModel> {
    Seq::new(v.len(), |i: int| v[i]@)
}

/// The total length of those of `path` that are there.
pub open spec fn known_length(g: GraphModel, path: Seq<SegmentId>) -> int
    decreases path.len(),
{
    if path.len() == 0 {
        0
    } else if g.segments.contains_key(path.last().0) {
        known_length(g, path.drop_last()) + g.segments[path.last().0].length_cm
    } else {
        known_length(g, path.drop_last())
    }
}

/// The distance to the end of the first `k` segments.
pub open spec fn cum(g: GraphModel, path: Seq<SegmentId>, k: int) -> int {
    total_length(g, path.take(k))
}

/// The node behind the first `k` segments.
pub open spec fn node_after(g: GraphModel, start: NodeId, path: Seq<SegmentId>, k: int) -> NodeId {
    g.walk_end(start, path.take(k))->Some_0
}

/// The largest `k` above `from` and up to `to` such that the first `k` segments end
/// within `target`, at a valid node if `valid` says so.
pub open spec fn last_fit(
    g: GraphModel,
    start: NodeId,
    path: Seq<SegmentId>,
    from: int,
    to: int,
    target: int,
    valid: bool,
) -> Option<int>
    decreases to - from,
{
    if to <= from {
        None
    } else if cum(g, path, to) <= target && (valid ==> g.valid_node(
        node_after(g, start, path, to),
    )) {
        Some(to)
    } else {
        last_fit(g, start, path, from, to - 1, target, valid)
    }
}

/// Where to cut: behind the farthest valid node within `target`, or else behind the
/// farthest node within `target`, or else nowhere.
pub open spec fn cut(
    g: GraphModel,
    start: NodeId,
    path: Seq<SegmentId>,
    from: int,
    target: int,
) -> Option<int> {
    match last_fit(g, start, path, from, path.len() as int, target, true) {
        Some(k) => Some(k),
        None => last_fit(g, start, path, from, path.len() as int, target, false),
    }
}

/// The node by which the segment at an anchor is entered.
pub open spec fn entry_of(a: LrpAnchor) -> NodeId {
    match a {
        LrpAnchor::Node(n) => n,
        LrpAnchor::Virtual { segment, entry_node, dist_from_entry_cm } => entry_node,
    }
}

/// How far into its segment an anchor lies.
pub open spec fn depth_of(a: LrpAnchor) -> int {
    match a {
        LrpAnchor::Node(n) => 0,
        LrpAnchor::Virtual { segment, entry_node, dist_from_entry_cm } => dist_from_entry_cm
            as int,
    }
}

/// Whether a leg may start `base` into `path`, somewhere along segment `idx`.
pub open spec fn on_path(g: GraphModel, path: Seq<SegmentId>, idx: int, base: int) -> bool {
    0 <= idx < path.len() && cum(g, path, idx) <= base <= cum(g, path, idx + 1)
}

/// The legs of the rest of `path`, from `anchor`, which lies `base` into it along
/// segment `idx`, none longer than `max`.
pub open spec fn legs_from(
    g: GraphModel,
    start: NodeId,
    path: Seq<SegmentId>,
    max: int,
    idx: int,
    base: int,
    anchor: LrpAnchor,
) -> Seq<LegModel>
    decreases cum(g, path, path.len() as int) - base, path.len() - idx,
    when max > 0 && on_path(g, path, idx, base)
    via legs_from_decreases
{
    let total = cum(g, path, path.len() as int);
    if base + max >= total {
        seq![
            LegModel { start: anchor, segments: path.skip(idx), length_cm: total - base },
        ]
    } else {
        match cut(g, start, path, idx, base + max) {
            Some(k) => seq![
                LegModel {
                    start: anchor,
                    segments: path.subrange(idx, k),
                    length_cm: cum(g, path, k) - base,
                },
            ] + legs_from(
                g,
                start,
                path,
                max,
                k,
                cum(g, path, k),
                LrpAnchor::Node(node_after(g, start, path, k)),
            ),
            None => seq![
                LegModel { start: anchor, segments: seq![path[idx]], length_cm: max },
            ] + legs_from(
                g,
                start,
                path,
                max,
                idx,
                base + max,
                LrpAnchor::Virtual {
                    segment: path[idx],
                    entry_node: entry_of(anchor),
                    dist_from_entry_cm: (depth_of(anchor) + max) as u64,
                },
            ),
        }
    }
}

#[via_fn]
proof fn legs_from_decreases(
    g: GraphModel,
    start: NodeId,
    path: Seq<SegmentId>,
    max: int,
    idx: int,
    base: int,
    anchor: LrpAnchor,
) {
    match cut(g, start, path, idx, base + max) {
        Some(k) => {
            lemma_cut(g, start, path, idx, base + max);
            lemma_cum_grows(g, path, idx + 1, k);
            lemma_cum_grows(g, path, k, path.len() as int);
        },
        None => {},
    }
}

proof fn lemma_last_fit(
    g: GraphModel,
    start: NodeId,
    path: Seq<SegmentId>,
    from: int,
    to: int,
    target: int,
    valid: bool,
)
    ensures
        last_fit(g, start, path, from, to, target, valid) matches Some(k) ==> from < k <= to && cum(
            g,
            path,
            k,
        ) <= target,
    decreases to - from,
{
    if to > from {
        lemma_last_fit(g, start, path, from, to - 1, target, valid);
    }
}

proof fn lemma_cut(g: GraphModel, start: NodeId, path: Seq<SegmentId>, from: int, target: int)
    ensures
        cut(g, start, path, from, target) matches Some(k) ==> from < k <= path.len() && cum(
            g,
            path,
            k,
        ) <= target,
{
    lemma_last_fit(g, start, path, from, path.len() as int, target, true);
    lemma_last_fit(g, start, path, from, path.len() as int, target, false);
}

proof fn lemma_cum_step(g: GraphModel, path: Seq<SegmentId>, k: int)
    requires
        0 <= k < path.len(),
    ensures
        cum(g, path, k + 1) == cum(g, path, k) + g.segments[path[k].0].length_cm,
{
    assert(path.take(k + 1).drop_last() =~= path.take(k));
}

proof fn lemma_cum_grows(g: GraphModel, path: Seq<SegmentId>, a: int, b: int)
    requires
        0 <= a <= b <= path.len(),
    ensures
        0 <= cum(g, path, a) <= cum(g, path, b),
    decreases b,
{
    if b == 0 {
        assert(path.take(0) =~= Seq::empty());
    } else {
        lemma_cum_step(g, path, b - 1);
        if a < b {
            lemma_cum_grows(g, path, a, b - 1);
        } else {
            lemma_cum_grows(g, path, a - 1, b - 1);
        }
    }
}

/// The legs of a path of which none may be longer than `max`.
pub open spec fn split(
    g: GraphModel,
    start: NodeId,
    path: Seq<SegmentId>,
    max: int,
) -> Seq<LegModel> {
    let total = total_length(g, path);
    if total <= max {
        seq![LegModel { start: LrpAnchor::Node(start), segments: path, length_cm: total }]
    } else {
        legs_from(g, start, path, max, 0, 0, LrpAnchor::Node(start))
    }
}

/// The nodes along a path: how far each is, and whether it is valid.
struct Stops {
    cums: Vec<u128>,
    nodes: Vec<NodeId>,
    valid: Vec<bool>,
}

impl Stops {
    spec fn of(self, g: GraphModel, start: NodeId, path: Seq<SegmentId>, n: int) -> bool {
        &&& self.cums@.len() == n + 1
        &&& self.nodes@.len() == n + 1
        &&& self.valid@.len() == n + 1
        &&& forall|k: int|
            0 <= k <= n ==> {
                &&& #[trigger] self.cums@[k] == cum(g, path, k)
                &&& self.nodes@[k] == node_after(g, start, path, k)
                &&& self.valid@[k] == g.valid_node(node_after(g, start, path, k))
            }
    }
}

proof fn lemma_walk_prefix(g: GraphModel, start: NodeId, path: Seq<SegmentId>, k: int)
    requires
        0 <= k <= path.len(),
        g.walk_end(start, path) is Some,
    ensures
        g.walk_end(start, path.take(k)) is Some,
    decreases path.len(),
{
    if k < path.len() {
        lemma_walk_prefix(g, start, path.drop_last(), k);
        assert(path.drop_last().take(k) =~= path.take(k));
    } else {
        assert(path.take(k) =~= path);
    }
}

proof fn lemma_cum_bound(g: GraphModel, path: Seq<SegmentId>, k: int)
    requires
        0 <= k <= path.len(),
    ensures
        0 <= cum(g, path, k) <= 0xffff_ffff * k,
    decreases k,
{
    if k > 0 {
        lemma_cum_bound(g, path, k - 1);
        lemma_cum_step(g, path, k - 1);
    } else {
        assert(path.take(0) =~= Seq::empty());
    }
}

fn survey(graph: &Graph, start: NodeId, path: &[SegmentId]) -> (s: Stops)
    requires
        graph@.wf(),
        graph@.walk_end(start, path@) is Some,
    ensures
        s.of(graph@, start, path@, path@.len() as int),
{
    let n: usize = path.len();
    let ghost g = graph@;
    let mut cums: Vec<u128> = Vec::new();
    let mut nodes: Vec<NodeId> = Vec::new();
    let mut valid: Vec<bool> = Vec::new();
    let mut node: NodeId = start;
    let mut sum: u128 = 0;
    cums.push(sum);
    nodes.push(node);
    valid.push(graph.is_valid_node(node));
    assert(path@.take(0) =~= Seq::empty());
    let mut i: usize = 0;
    while i < n
        invariant
            g == graph@,
            g.wf(),
            n == path@.len(),
            i <= n,
            g.walk_end(start, path@) is Some,
            g.walk_end(start, path@.take(i as int)) == Some(node),
            sum == cum(g, path@, i as int),
            (Stops { cums, nodes, valid }).of(g, start, path@, i as int),
        decreases n - i,
    {
        proof {
            lemma_walk_prefix(g, start, path@, i + 1);
            assert(path@.take(i + 1).drop_last() =~= path@.take(i as int));
            lemma_cum_step(g, path@, i as int);
            lemma_cum_bound(g, path@, i + 1);
        }
        let ghost before = Stops { cums, nodes, valid };
        match (graph.segment(path[i]), graph.other_end(path[i], node)) {
            (Some(s), Some(m)) => {
                sum = sum + s.length_cm as u128;
                node = m;
            },
            _ => {
                assert(false);
            },
        }
        cums.push(sum);
        nodes.push(node);
        valid.push(graph.is_valid_node(node));
        proof {
            let after = Stops { cums, nodes, valid };
            assert forall|k: int| 0 <= k <= i + 1 implies {
                &&& #[trigger] after.cums@[k] == cum(g, path@, k)
                &&& after.nodes@[k] == node_after(g, start, path@, k)
                &&& after.valid@[k] == g.valid_node(node_after(g, start, path@, k))
            } by {
                if k <= i {
                    assert(before.cums@[k] == cum(g, path@, k));
                }
            }
        }
        i += 1;
    }
    Stops { cums, nodes, valid }
}

/// Nothing at or behind a point beyond `target` fits.
proof fn lemma_nothing_behind(
    g: GraphModel,
    start: NodeId,
    path: Seq<SegmentId>,
    from: int,
    j: int,
    to: int,
    target: int,
    valid: bool,
)
    requires
        0 <= from <= j <= to <= path.len(),
        j < to ==> cum(g, path, j + 1) > target,
    ensures
        last_fit(g, start, path, from, to, target, valid) == last_fit(
            g,
            start,
            path,
            from,
            j,
            target,
            valid,
        ),
    decreases to - j,
{
    if j < to {
        lemma_cum_grows(g, path, j + 1, to);
        lemma_nothing_behind(g, start, path, from, j, to - 1, target, valid);
    }
}

fn find_cut(
    s: &Stops,
    from: usize,
    target: u128,
    Ghost(g): Ghost<GraphModel>,
    Ghost(start): Ghost<NodeId>,
    Ghost(path): Ghost<Seq<SegmentId>>,
) -> (r: Option<usize>)
    requires
        s.of(g, start, path, path.len() as int),
        from <= path.len(),
    ensures
        (match r {
            Some(k) => cut(g, start, path, from as int, target as int) == Some(k as int),
            None => cut(g, start, path, from as int, target as int) is None,
        }),
{
    let n: usize = s.cums.len() - 1;
    let mut j: usize = from;
    let mut best: Option<usize> = None;
    let ghost t = target as int;
    while j < n && s.cums[j + 1] <= target
        invariant
            s.of(g, start, path, path.len() as int),
            n == path.len(),
            n + 1 == s.cums@.len(),
            from <= j <= n,
            t == target,
            (match best {
                Some(k) => last_fit(g, start, path, from as int, j as int, t, true) == Some(
                    k as int,
                ),
                None => last_fit(g, start, path, from as int, j as int, t, true) is None,
            }),
            last_fit(g, start, path, from as int, j as int, t, false) == if j > from {
                Some(j as int)
            } else {
                None
            },
        decreases n - j,
    {
        assert(s.cums@[j + 1] == cum(g, path, j + 1));
        j += 1;
        if s.valid[j] {
            best = Some(j);
        }
    }
    proof {
        if j < n {
            assert(s.cums@[j + 1] == cum(g, path, j + 1));
        }
        lemma_nothing_behind(g, start, path, from as int, j as int, n as int, t, true);
        lemma_nothing_behind(g, start, path, from as int, j as int, n as int, t, false);
    }
    match best {
        Some(k) => Some(k),
        None => if j > from {
            Some(j)
        } else {
            None
        },
    }
}

fn copy_part(path: &[SegmentId], from: usize, to: usize) -> (v: Vec<SegmentId>)
    requires
        from <= to <= path@.len(),
    ensures
        v@ == path@.subrange(from as int, to as int),
{
    let part: &[SegmentId] = vstd::slice::slice_subrange(path, from, to);
    vstd::slice::slice_to_vec(part)
}

proof fn lemma_models_push(v: Seq<Leg>, l: Leg)
    ensures
        leg_models(v.push(l)) == leg_models(v).push(l@),
{
    assert(leg_models(v.push(l)) =~= leg_models(v).push(l@));
}

/// Cut a path into legs of which none is longer than `max_leg_cm`.
///
/// Each leg ends at the farthest valid node within reach; if there is none, at the
/// farthest node within reach; and if not even the next node is within reach, partway
/// into the segment that leads there. Fails only where `max_leg_cm` is not positive.
#[verifier::rlimit(40)]
pub fn split_for_rule1(
    graph: &Graph,
    raw_start: NodeId,
    raw_segments: &[SegmentId],
    max_leg_cm: i64,
) -> (r: Result<Vec<Leg>, EncodeError>)
    requires
        graph@.wf(),
        max_leg_cm > 0 ==> graph@.walk_end(raw_start, raw_segments@) is Some,
    ensures
        (match r {
            Ok(legs) => max_leg_cm > 0 && leg_models(legs@) == split(
                graph@,
                raw_start,
                raw_segments@,
                max_leg_cm as int,
            ),
            Err(e) => max_leg_cm <= 0 && e is LegTooLong && e->max_leg_cm == max_leg_cm
                && e->LegTooLong_length_cm == known_length(graph@, raw_segments@),
        }),
{
    let ghost g = graph@;
    let ghost path = raw_segments@;
    if max_leg_cm <= 0 {
        return Err(
            EncodeError::LegTooLong { length_cm: measure_known(graph, raw_segments), max_leg_cm },
        );
    }
    let stops: Stops = survey(graph, raw_start, raw_segments);
    let n: usize = raw_segments.len();
    let total: u128 = stops.cums[n];
    let max: u128 = max_leg_cm as u128;
    assert(path.take(n as int) =~= path);
    if total <= max {
        let leg = Leg {
            start: LrpAnchor::Node(raw_start),
            segments: copy_part(raw_segments, 0, n),
            length_cm: total as u64,
        };
        let mut out: Vec<Leg> = Vec::new();
        out.push(leg);
        assert(path.subrange(0, n as int) =~= path);
        assert(leg_models(out@) =~= split(g, raw_start, path, max as int));
        return Ok(out);
    }
    let ghost all = legs_from(g, raw_start, path, max as int, 0, 0, LrpAnchor::Node(raw_start));
    let mut out: Vec<Leg> = Vec::new();
    let mut anchor: LrpAnchor = LrpAnchor::Node(raw_start);
    let mut base: u128 = 0;
    let mut idx: usize = 0;
    proof {
        assert(path.take(0) =~= Seq::empty());
        lemma_cum_grows(g, path, 0, 1);
        assert(leg_models(out@) + all =~= all);
        lemma_cum_bound(g, path, n as int);
    }
    loop
        invariant
            g == graph@,
            path == raw_segments@,
            n == path.len(),
            stops.of(g, raw_start, path, n as int),
            total == cum(g, path, n as int),
            total <= 0xffff_ffff * n,
            0 < max <= i64::MAX,
            max == max_leg_cm,
            max_leg_cm > 0,
            all == legs_from(
                g,
                raw_start,
                path,
                max as int,
                0,
                0,
                LrpAnchor::Node(raw_start),
            ),
            all == split(g, raw_start, path, max as int),
            on_path(g, path, idx as int, base as int),
            depth_of(anchor) == base - cum(g, path, idx as int),
            leg_models(out@) + legs_from(
                g,
                raw_start,
                path,
                max as int,
                idx as int,
                base as int,
                anchor,
            ) == all,
        decreases total - base, n - idx,
    {
        let ghost before = out@;
        let ghost rest = legs_from(
            g,
            raw_start,
            path,
            max as int,
            idx as int,
            base as int,
            anchor,
        );
        proof {
            lemma_cum_grows(g, path, idx + 1, n as int);
        }
        let target: u128 = base + max;
        if target >= total {
            let leg = Leg {
                start: anchor,
                segments: copy_part(raw_segments, idx, n),
                length_cm: (total - base) as u64,
            };
            out.push(leg);
            proof {
                lemma_models_push(before, leg);
                assert(path.subrange(idx as int, n as int) =~= path.skip(idx as int));
                assert(leg_models(before) + rest =~= leg_models(before).push(leg@));
            }
            return Ok(out);
        }
        match find_cut(&stops, idx, target, Ghost(g), Ghost(raw_start), Ghost(path)) {
            Some(k) => {
                proof {
                    lemma_cut(g, raw_start, path, idx as int, target as int);
                    lemma_cum_grows(g, path, idx + 1, k as int);
                    assert(k < n);
                    lemma_cum_grows(g, path, k as int, k + 1);
                    assert(stops.cums@[k as int] == cum(g, path, k as int));
                }
                let at: u128 = stops.cums[k];
                let leg = Leg {
                    start: anchor,
                    segments: copy_part(raw_segments, idx, k),
                    length_cm: (at - base) as u64,
                };
                out.push(leg);
                let next = LrpAnchor::Node(stops.nodes[k]);
                proof {
                    lemma_models_push(before, leg);
                    let tail = legs_from(
                        g,
                        raw_start,
                        path,
                        max as int,
                        k as int,
                        at as int,
                        next,
                    );
                    assert(rest =~= seq![leg@] + tail);
                    assert(leg_models(before) + rest =~= leg_models(out@) + tail);
                }
                base = at;
                idx = k;
                anchor = next;
            },
            None => {
                proof {
                    lemma_cum_step(g, path, idx as int);
                    lemma_no_cut(g, raw_start, path, idx as int, target as int);
                }
                let seg: SegmentId = raw_segments[idx];
                let (entry_node, depth): (NodeId, u64) = match anchor {
                    LrpAnchor::Node(m) => (m, 0),
                    LrpAnchor::Virtual { segment: _, entry_node, dist_from_entry_cm } => (
                        entry_node,
                        dist_from_entry_cm,
                    ),
                };
                let mut one: Vec<SegmentId> = Vec::new();
                one.push(seg);
                let leg = Leg { start: anchor, segments: one, length_cm: max_leg_cm as u64 };
                out.push(leg);
                let next = LrpAnchor::Virtual {
                    segment: seg,
                    entry_node,
                    dist_from_entry_cm: depth + max_leg_cm as u64,
                };
                proof {
                    lemma_models_push(before, leg);
                    assert(one@ =~= seq![path[idx as int]]);
                    let tail = legs_from(
                        g,
                        raw_start,
                        path,
                        max as int,
                        idx as int,
                        target as int,
                        next,
                    );
                    assert(rest =~= seq![leg@] + tail);
                    assert(leg_models(before) + rest =~= leg_models(out@) + tail);
                }
                base = target;
                anchor = next;
            },
        }
    }
}

/// Where there is nowhere to cut, the next node is out of reach.
proof fn lemma_no_cut(g: GraphModel, start: NodeId, path: Seq<SegmentId>, from: int, target: int)
    requires
        0 <= from < path.len(),
        cut(g, start, path, from, target) is None,
    ensures
        cum(g, path, from + 1) > target,
{
    if cum(g, path, from + 1) <= target {
        lemma_first_fits(g, start, path, from, path.len() as int, target);
    }
}

proof fn lemma_first_fits(
    g: GraphModel,
    start: NodeId,
    path: Seq<SegmentId>,
    from: int,
    to: int,
    target: int,
)
    requires
        0 <= from < to <= path.len(),
        cum(g, path, from + 1) <= target,
    ensures
        last_fit(g, start, path, from, to, target, false) is Some,
    decreases to,
{
    if from + 1 < to {
        lemma_first_fits(g, start, path, from, to - 1, target);
    }
}

proof fn lemma_known_bound(g: GraphModel, path: Seq<SegmentId>)
    ensures
        0 <= known_length(g, path) <= 0xffff_ffff * path.len(),
    decreases path.len(),
{
    if path.len() > 0 {
        lemma_known_bound(g, path.drop_last());
    }
}

fn measure_known(graph: &Graph, path: &[SegmentId]) -> (sum: u128)
    ensures
        sum == known_length(graph@, path@),
{
    let n: usize = path.len();
    let mut sum: u128 = 0;
    let mut i: usize = 0;
    while i < n
        invariant
            n == path@.len(),
            i <= n,
            sum == known_length(graph@, path@.take(i as int)),
        decreases n - i,
    {
        proof {
            assert(path@.take(i + 1).drop_last() =~= path@.take(i as int));
            lemma_known_bound(graph@, path@.take(i as int));
        }
        match graph.segment(path[i]) {
            Some(s) => {
                sum = sum + s.length_cm as u128;
            },
            None => {},
        }
        i += 1;
    }
    assert(path@.take(i as int) =~= path@);
    sum
}

/// The total length of some legs.
pub open spec fn legs_length(legs: Seq<LegModel>) -> int
    decreases legs.len(),
{
    if legs.len() == 0 {
        0
    } else {
        legs.first().length_cm + legs_length(legs.skip(1))
    }
}

/// Whether the legs take up `path` from segment `idx` on, each going on where the one
/// before it ended: behind a whole segment, or within the segment that it cuts.
pub open spec fn legs_cover(path: Seq<SegmentId>, idx: int, legs: Seq<LegModel>) -> bool
    decreases legs.len(),
{
    if legs.len() == 0 {
        false
    } else if legs.len() == 1 {
        legs[0].segments == path.skip(idx)
    } else {
        let k = idx + legs[0].segments.len();
        &&& 0 <= idx < path.len()
        &&& legs[0].segments.len() > 0
        &&& k <= path.len()
        &&& legs[0].segments == path.subrange(idx, k)
        &&& match legs[1].start {
            LrpAnchor::Node(_) => legs_cover(path, k, legs.skip(1)),
            LrpAnchor::Virtual { segment, entry_node, dist_from_entry_cm } => legs[0].segments.len()
                == 1 && segment == path[idx] && legs_cover(path, idx, legs.skip(1)),
        }
    }
}

proof fn lemma_legs_from(
    g: GraphModel,
    start: NodeId,
    path: Seq<SegmentId>,
    max: int,
    idx: int,
    base: int,
    anchor: LrpAnchor,
)
    requires
        max > 0,
        on_path(g, path, idx, base),
    ensures
        ({
            let legs = legs_from(g, start, path, max, idx, base, anchor);
            &&& legs.len() > 0
            &&& legs[0].start == anchor
            &&& legs_length(legs) == cum(g, path, path.len() as int) - base
            &&& forall|i: int| 0 <= i < legs.len() ==> 0 <= (#[trigger] legs[i]).length_cm <= max
            &&& legs_cover(path, idx, legs)
        }),
    decreases cum(g, path, path.len() as int) - base, path.len() - idx,
{
    reveal_with_fuel(legs_length, 2);
    let total = cum(g, path, path.len() as int);
    let legs = legs_from(g, start, path, max, idx, base, anchor);
    lemma_cum_grows(g, path, idx + 1, path.len() as int);
    if base + max >= total {
        assert(legs.skip(1) =~= Seq::empty());
    } else {
        match cut(g, start, path, idx, base + max) {
            Some(k) => {
                let next = LrpAnchor::Node(node_after(g, start, path, k));
                let tail = legs_from(g, start, path, max, k, cum(g, path, k), next);
                lemma_cut(g, start, path, idx, base + max);
                lemma_cum_grows(g, path, idx + 1, k);
                assert(k < path.len());
                lemma_cum_grows(g, path, k, k + 1);
                lemma_legs_from(g, start, path, max, k, cum(g, path, k), next);
                assert(legs.skip(1) =~= tail);
                assert(legs[1] == tail[0]);
                assert forall|i: int| 0 <= i < legs.len() implies 0 <= (#[trigger] legs[i]).length_cm
                    <= max by {
                    if i > 0 {
                        assert(legs[i] == tail[i - 1]);
                    }
                }
            },
            None => {
                let next = LrpAnchor::Virtual {
                    segment: path[idx],
                    entry_node: entry_of(anchor),
                    dist_from_entry_cm: (depth_of(anchor) + max) as u64,
                };
                let tail = legs_from(g, start, path, max, idx, base + max, next);
                lemma_no_cut(g, start, path, idx, base + max);
                lemma_legs_from(g, start, path, max, idx, base + max, next);
                assert(legs.skip(1) =~= tail);
                assert(legs[1] == tail[0]);
                assert(legs[0].segments =~= path.subrange(idx, idx + 1));
                assert forall|i: int| 0 <= i < legs.len() implies 0 <= (#[trigger] legs[i]).length_cm
                    <= max by {
                    if i > 0 {
                        assert(legs[i] == tail[i - 1]);
                    }
                }
            },
        }
    }
}

/// Splitting keeps the path: the first leg starts where the path starts, the legs
/// take up every segment in order, their lengths add up to the length of the path, and
/// none is longer than allowed.
pub proof fn law_split_keeps_the_path(
    g: GraphModel,
    start: NodeId,
    path: Seq<SegmentId>,
    max: int,
)
    requires
        max > 0,
    ensures
        split(g, start, path, max).len() > 0,
        split(g, start, path, max)[0].start == LrpAnchor::Node(start),
        legs_length(split(g, start, path, max)) == total_length(g, path),
        forall|i: int|
            0 <= i < split(g, start, path, max).len() ==> 0 <= (#[trigger] split(
                g,
                start,
                path,
                max,
            )[i]).length_cm <= max,
        legs_cover(path, 0, split(g, start, path, max)),
{
    reveal_with_fuel(legs_length, 2);
    let legs = split(g, start, path, max);
    assert(path.take(path.len() as int) =~= path);
    lemma_cum_grows(g, path, 0, path.len() as int);
    if total_length(g, path) <= max {
        assert(legs.skip(1) =~= Seq::empty());
        assert(path.skip(0) =~= path);
    } else {
        assert(path.take(0) =~= Seq::empty());
        if path.len() == 0 {
            assert(false);
        }
        lemma_cum_grows(g, path, 0, 1);
        lemma_legs_from(g, start, path, max, 0, 0, LrpAnchor::Node(start));
    }
}

proof fn lemma_last_fit_is_last(
    g: GraphModel,
    start: NodeId,
    path: Seq<SegmentId>,
    from: int,
    to: int,
    target: int,
    valid: bool,
    j: int,
)
    requires
        from < j <= to,
        cum(g, path, j) <= target,
        valid ==> g.valid_node(node_after(g, start, path, j)),
    ensures
        last_fit(g, start, path, from, to, target, valid) matches Some(k) && j <= k,
    decreases to - j,
{
    if j < to {
        lemma_last_fit_is_last(g, start, path, from, to - 1, target, valid, j);
    }
}

/// A cut prefers valid nodes: where a valid node is within reach, the cut is behind
/// one, and no valid node farther on is within reach.
pub proof fn law_cuts_prefer_valid_nodes(
    g: GraphModel,
    start: NodeId,
    path: Seq<SegmentId>,
    from: int,
    target: int,
    j: int,
)
    requires
        from < j <= path.len(),
        cum(g, path, j) <= target,
        g.valid_node(node_after(g, start, path, j)),
    ensures
        cut(g, start, path, from, target) matches Some(k) && j <= k && g.valid_node(
            node_after(g, start, path, k),
        ),
{
    lemma_last_fit_is_last(g, start, path, from, path.len() as int, target, true, j);
    lemma_last_fit_valid(g, start, path, from, path.len() as int, target);
}

proof fn lemma_last_fit_valid(
    g: GraphModel,
    start: NodeId,
    path: Seq<SegmentId>,
    from: int,
    to: int,
    target: int,
)
    ensures
        last_fit(g, start, path, from, to, target, true) matches Some(k) ==> g.valid_node(
            node_after(g, start, path, k),
        ),
    decreases to - from,
{
    if to > from {
        lemma_last_fit_valid(g, start, path, from, to - 1, target);
    }
}

/// Whether an anchor lies `base` into the path, along segment `idx`: at the node before it,
/// or in it, entered by that node.
pub open spec fn anchored_at(
    g: GraphModel,
    start: NodeId,
    path: Seq<SegmentId>,
    idx: int,
    base: int,
    a: LrpAnchor,
) -> bool {
    match a {
        LrpAnchor::Node(n) => g.walk_end(start, path.take(idx)) == Some(n) && base
            == total_length(g, path.take(idx)),
        LrpAnchor::Virtual { segment, entry_node, dist_from_entry_cm } => {
            &&& segment == path[idx]
            &&& g.walk_end(start, path.take(idx)) == Some(entry_node)
            &&& dist_from_entry_cm == base - total_length(g, path.take(idx))
            &&& 0 < dist_from_entry_cm < g.segments[segment.0].length_cm
        },
    }
}

/// Whether the first `k` segments end within `target`, farther on than segment `idx`
/// starts.
pub open spec fn ends_within(g: GraphModel, path: Seq<SegmentId>, idx: int, k: int, target: int) -> bool {
    idx < k <= path.len() && total_length(g, path.take(k)) <= target
}

/// Whether the first `k` segments end at a node where a location reference may have a point.
pub open spec fn ends_validly(g: GraphModel, start: NodeId, path: Seq<SegmentId>, k: int) -> bool {
    g.walk_end(start, path.take(k)) matches Some(n) && g.valid_node(n)
}

/// Whether a leg that may reach up to `target` ends well, behind `k` segments: at the last
/// valid node within reach, or where there is none, at the last node within reach.
pub open spec fn ends_well(
    g: GraphModel,
    start: NodeId,
    path: Seq<SegmentId>,
    idx: int,
    target: int,
    k: int,
) -> bool {
    &&& ends_within(g, path, idx, k, target)
    &&& {
        ||| ends_validly(g, start, path, k) && forall|j: int| #[trigger]
            ends_within(g, path, idx, j, target) && ends_validly(g, start, path, j) ==> j <= k
        ||| (forall|j: int| #[trigger]
            ends_within(g, path, idx, j, target) ==> !ends_validly(g, start, path, j) && j <= k)
    }
}

/// Whether legs run along the rest of a path from `base` into it, along segment `idx`. Each
/// starts where the one before it ends; each but the last ends well within the limit, or
/// where no node is within reach, right at the limit; and the last ends the path.
pub open spec fn run_along(
    g: GraphModel,
    start: NodeId,
    path: Seq<SegmentId>,
    max: int,
    idx: int,
    base: int,
    legs: Seq<LegModel>,
) -> bool
    decreases legs.len(),
{
    &&& legs.len() > 0
    &&& anchored_at(g, start, path, idx, base, legs[0].start)
    &&& legs.len() == 1 ==> {
        &&& total_length(g, path) <= base + max
        &&& legs[0].segments == path.skip(idx)
        &&& legs[0].length_cm == total_length(g, path) - base
    }
    &&& legs.len() > 1 ==> base + max < total_length(g, path) && {
        ||| exists|k: int|
            {
                &&& #[trigger] ends_well(g, start, path, idx, base + max, k)
                &&& legs[0].segments == path.subrange(idx, k)
                &&& legs[0].length_cm == total_length(g, path.take(k)) - base
                &&& legs[1].start is Node
                &&& run_along(
                    g,
                    start,
                    path,
                    max,
                    k,
                    total_length(g, path.take(k)),
                    legs.skip(1),
                )
            }
        ||| {
            &&& forall|k: int| !(#[trigger] ends_within(g, path, idx, k, base + max))
            &&& legs[0].segments == seq![path[idx]]
            &&& legs[0].length_cm == max
            &&& legs[1].start is Virtual
            &&& run_along(g, start, path, max, idx, base + max, legs.skip(1))
        }
    }
}

proof fn lemma_ends_well(
    g: GraphModel,
    start: NodeId,
    path: Seq<SegmentId>,
    idx: int,
    target: int,
)
    requires
        g.walk_end(start, path) is Some,
        0 <= idx,
    ensures
        (match cut(g, start, path, idx, target) {
            Some(k) => ends_well(g, start, path, idx, target, k),
            None => forall|k: int| !(#[trigger] ends_within(g, path, idx, k, target)),
        }),
{
    let n = path.len() as int;
    lemma_last_fit(g, start, path, idx, n, target, true);
    lemma_last_fit(g, start, path, idx, n, target, false);
    lemma_last_fit_valid(g, start, path, idx, n, target);
    match last_fit(g, start, path, idx, n, target, true) {
        Some(k) => {
            lemma_walk_prefix(g, start, path, k);
            assert forall|j: int| #[trigger]
                ends_within(g, path, idx, j, target) && ends_validly(
                g,
                start,
                path,
                j,
            ) implies j <= k by {
                lemma_last_fit_is_last(g, start, path, idx, n, target, true, j);
            }
        },
        None => {
            assert forall|j: int| #[trigger]
                ends_within(g, path, idx, j, target) implies !ends_validly(g, start, path, j) by {
                if ends_validly(g, start, path, j) {
                    lemma_last_fit_is_last(g, start, path, idx, n, target, true, j);
                }
            }
            match last_fit(g, start, path, idx, n, target, false) {
                Some(k) => {
                    assert forall|j: int| #[trigger]
                        ends_within(g, path, idx, j, target) implies !ends_validly(
                        g,
                        start,
                        path,
                        j,
                    ) && j <= k by {
                        lemma_last_fit_is_last(g, start, path, idx, n, target, false, j);
                    }
                },
                None => {
                    assert forall|j: int| !(#[trigger] ends_within(g, path, idx, j, target)) by {
                        if ends_within(g, path, idx, j, target) {
                            lemma_last_fit_is_last(g, start, path, idx, n, target, false, j);
                        }
                    }
                },
            }
        },
    }
}

proof fn lemma_run_along(
    g: GraphModel,
    start: NodeId,
    path: Seq<SegmentId>,
    max: int,
    idx: int,
    base: int,
    anchor: LrpAnchor,
)
    requires
        max > 0,
        on_path(g, path, idx, base),
        g.walk_end(start, path) is Some,
        anchored_at(g, start, path, idx, base, anchor),
    ensures
        run_along(
            g,
            start,
            path,
            max,
            idx,
            base,
            legs_from(g, start, path, max, idx, base, anchor),
        ),
    decreases cum(g, path, path.len() as int) - base, path.len() - idx,
{
    let total = cum(g, path, path.len() as int);
    let legs = legs_from(g, start, path, max, idx, base, anchor);
    assert(path.take(path.len() as int) =~= path);
    lemma_cum_grows(g, path, idx + 1, path.len() as int);
    if base + max < total {
        lemma_ends_well(g, start, path, idx, base + max);
        match cut(g, start, path, idx, base + max) {
            Some(k) => {
                let next = LrpAnchor::Node(node_after(g, start, path, k));
                let tail = legs_from(g, start, path, max, k, cum(g, path, k), next);
                lemma_cut(g, start, path, idx, base + max);
                lemma_cum_grows(g, path, idx + 1, k);
                assert(k < path.len());
                lemma_cum_grows(g, path, k, k + 1);
                lemma_walk_prefix(g, start, path, k);
                lemma_run_along(g, start, path, max, k, cum(g, path, k), next);
                lemma_legs_from(g, start, path, max, k, cum(g, path, k), next);
                assert(legs.skip(1) =~= tail);
                assert(legs[1] == tail[0]);
                assert(ends_well(g, start, path, idx, base + max, k));
            },
            None => {
                let next = LrpAnchor::Virtual {
                    segment: path[idx],
                    entry_node: entry_of(anchor),
                    dist_from_entry_cm: (depth_of(anchor) + max) as u64,
                };
                let tail = legs_from(g, start, path, max, idx, base + max, next);
                lemma_no_cut(g, start, path, idx, base + max);
                lemma_cum_step(g, path, idx);
                lemma_run_along(g, start, path, max, idx, base + max, next);
                lemma_legs_from(g, start, path, max, idx, base + max, next);
                assert(legs.skip(1) =~= tail);
                assert(legs[1] == tail[0]);
            },
        }
    }
}

/// Splitting cuts a path as late as it can: each leg but the last ends at the farthest valid
/// node within the limit, or at the farthest node where no valid one is within it, or right
/// at the limit where no node is. Each leg starts where the one before it ends: at that
/// node, or in that segment as far from the node by which it was entered.
pub proof fn law_split_cuts_late(g: GraphModel, start: NodeId, path: Seq<SegmentId>, max: int)
    requires
        max > 0,
        g.walk_end(start, path) is Some,
    ensures
        run_along(g, start, path, max, 0, 0, split(g, start, path, max)),
{
    let legs = split(g, start, path, max);
    assert(path.take(0) =~= Seq::empty());
    assert(path.skip(0) =~= path);
    if total_length(g, path) > max {
        assert(path.take(path.len() as int) =~= path);
        if path.len() == 0 {
            assert(false);
        }
        lemma_cum_grows(g, path, 0, 1);
        lemma_run_along(g, start, path, max, 0, 0, LrpAnchor::Node(start));
    }
}

/// The length that a refusal names is that of the segments that are there: of two paths, one
/// after the other, it is the length of both, one segment counts as long as it is, and one
/// that is not there does not count.
pub proof fn law_known_lengths_add_up(
    g: GraphModel,
    a: Seq<SegmentId>,
    b: Seq<SegmentId>,
    s: SegmentId,
)
    ensures
        known_length(g, a + b) == known_length(g, a) + known_length(g, b),
        known_length(g, seq![s]) == if g.segments.contains_key(s.0) {
            g.segments[s.0].length_cm as int
        } else {
            0
        },
    decreases b.len(),
{
    let one = seq![s];
    assert(one.drop_last() =~= Seq::empty());
    reveal_with_fuel(known_length, 2);
    if b.len() == 0 {
        assert(a + b =~= a);
    } else {
        law_known_lengths_add_up(g, a, b.drop_last(), s);
        assert((a + b).drop_last() =~= a + b.drop_last());
    }
}

/// The length of a path is that of its segments: of two paths, one after the other, it is
/// the length of both, and one segment is as long as it is.
pub proof fn law_lengths_add_up(g: GraphModel, a: Seq<SegmentId>, b: Seq<SegmentId>, s: SegmentId)
    ensures
        total_length(g, a + b) == total_length(g, a) + total_length(g, b),
        total_length(g, seq![s]) == g.segments[s.0].length_cm,
    decreases b.len(),
{
    let one = seq![s];
    assert(one.drop_last() =~= Seq::empty());
    reveal_with_fuel(total_length, 2);
    if b.len() == 0 {
        assert(a + b =~= a);
    } else {
        law_lengths_add_up(g, a, b.drop_last(), s);
        assert((a + b).drop_last() =~= a + b.drop_last());
    }
}

} // verus!
