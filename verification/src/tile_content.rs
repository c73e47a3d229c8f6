//! What a network holds, told by stable ids alone.
use vstd::multiset::Multiset;
use vstd::prelude::*;

use crate::graph::{
    Direction, GraphModel, NodeId, NodeModel, SegmentId, SegmentModel, TurnRestriction,
};
use crate::tile_format::{
    header_of, node_rec, restr_rec, seg_rec, xrestr_rec, NodeRec, RestrRec, SegRec, XRestrRec,
};
use crate::tile_laws::{
    keeps_entries, law_loading_keeps_consistent, lemma_taking_node_consistent,
    lemma_taking_seg_consistent,
};
use crate::tile_merge::{
    after_nodes, after_restrs, after_segs, after_xrestrs, carrying, loaded, merged, readable,
    resolvable, resolved_turns, segments_with, step_node, step_restr, step_seg, step_xrestr,
    stitched, turns_between, turns_into, unresolved, LoadModel, PendingModel, Progress,
};

verus! {

/// What a segment is, with the stable ids of its ends.
#[verifier::ext_equal]
pub struct RoadContent {
    pub start: Seq<char>,
    pub end: Seq<char>,
    pub geometry: Seq<(i32, i32)>,
    pub length_cm: u32,
    pub frc: u8,
    pub fow: u8,
    pub direction: Direction,
}

/// A forbidden turn: the stable ids of two segments and of the node between them.
#[verifier::ext_equal]
pub struct TurnNames {
    pub from: Seq<char>,
    pub over: Seq<char>,
    pub to: Seq<char>,
}

/// Where a node is.
pub open spec fn place_of(n: NodeModel) -> (i32, i32) {
    (n.lon, n.lat)
}

/// What a segment of a network is.
pub open spec fn road_content(g: GraphModel, s: SegmentModel) -> RoadContent {
    RoadContent {
        start: g.nodes[s.start_node.0].stable_id,
        end: g.nodes[s.end_node.0].stable_id,
        geometry: s.geometry,
        length_cm: s.length_cm,
        frc: s.frc,
        fow: s.fow,
        direction: s.direction,
    }
}

/// The stable ids of a forbidden turn.
pub open spec fn turn_names(g: GraphModel, r: TurnRestriction) -> TurnNames {
    TurnNames {
        from: g.segments[r.from_seg.0].stable_id,
        over: g.nodes[r.via_node.0].stable_id,
        to: g.segments[r.to_seg.0].stable_id,
    }
}

/// The stable ids of forbidden turns.
pub open spec fn turn_list(g: GraphModel, rs: Seq<TurnRestriction>) -> Seq<TurnNames> {
    Seq::new(rs.len(), |i: int| turn_names(g, rs[i]))
}

/// The stable ids of restrictions that wait.
pub open spec fn waiting_list(g: GraphModel, ps: Seq<PendingModel>) -> Seq<TurnNames> {
    Seq::new(
        ps.len(),
        |i: int|
            TurnNames {
                from: ps[i].from_id,
                over: g.nodes[ps[i].via_node.0].stable_id,
                to: ps[i].to_id,
            },
    )
}

/// The place of each node, by stable id.
pub open spec fn nodes_by_name(l: LoadModel) -> Map<Seq<char>, (i32, i32)> {
    Map::new(
        |t: Seq<char>| l.node_ids.contains_key(t),
        |t: Seq<char>| place_of(l.graph.nodes[l.node_ids[t].0]),
    )
}

/// What each segment is, by stable id.
pub open spec fn roads_by_name(l: LoadModel) -> Map<Seq<char>, RoadContent> {
    Map::new(
        |t: Seq<char>| l.seg_ids.contains_key(t),
        |t: Seq<char>| road_content(l.graph, l.graph.segments[l.seg_ids[t].0]),
    )
}

/// The forbidden turns, by stable ids.
pub open spec fn turns_by_name(l: LoadModel) -> Multiset<TurnNames> {
    turn_list(l.graph, l.graph.restrictions).to_multiset()
}

/// The restrictions that wait, by stable ids.
pub open spec fn waiting_by_name(l: LoadModel) -> Multiset<TurnNames> {
    waiting_list(l.graph, l.pending).to_multiset()
}

/// Node record `i` of a tile that can be read.
pub open spec fn node_at(b: Seq<u8>, i: int) -> NodeRec {
    node_rec(b, header_of(b), i)->Ok_0
}

/// Segment record `i` of a tile that can be read.
pub open spec fn seg_at(b: Seq<u8>, i: int) -> SegRec {
    seg_rec(b, header_of(b), i)->Ok_0
}

/// The segment that segment record `i` describes.
pub open spec fn road_at(b: Seq<u8>, i: int) -> RoadContent {
    let r = seg_at(b, i);
    RoadContent {
        start: node_at(b, r.start).stable_id,
        end: node_at(b, r.end).stable_id,
        geometry: r.geometry,
        length_cm: r.length_cm,
        frc: r.frc,
        fow: r.fow,
        direction: r.direction,
    }
}

/// The turn that restriction record `i` forbids.
pub open spec fn turn_at(b: Seq<u8>, i: int) -> TurnNames {
    let r = restr_rec(b, header_of(b), i)->Ok_0;
    TurnNames {
        from: seg_at(b, r.from).stable_id,
        over: node_at(b, r.via).stable_id,
        to: seg_at(b, r.to).stable_id,
    }
}

/// The turn that cross restriction record `i` forbids.
pub open spec fn cross_at(b: Seq<u8>, i: int) -> TurnNames {
    let r = xrestr_rec(b, header_of(b), i)->Ok_0;
    TurnNames { from: r.from_id, over: node_at(b, r.via).stable_id, to: r.to_id }
}

/// The turns that the first `n` restriction records forbid.
pub open spec fn turns_in(b: Seq<u8>, n: int) -> Seq<TurnNames> {
    Seq::new(n as nat, |i: int| turn_at(b, i))
}

/// The turns that the first `n` cross restriction records forbid.
pub open spec fn crosses_in(b: Seq<u8>, n: int) -> Seq<TurnNames> {
    Seq::new(n as nat, |i: int| cross_at(b, i))
}

/// Whether everything that the network speaks of is in it.
pub open spec fn grounded(l: LoadModel) -> bool {
    &&& forall|k: u32| #[trigger]
        l.graph.segments.contains_key(k) ==> l.graph.nodes.contains_key(
            l.graph.segments[k].start_node.0,
        ) && l.graph.nodes.contains_key(l.graph.segments[k].end_node.0)
    &&& forall|i: int|
        0 <= i < l.graph.restrictions.len() ==> l.graph.segments.contains_key(
            (#[trigger] l.graph.restrictions[i]).from_seg.0,
        ) && l.graph.segments.contains_key(l.graph.restrictions[i].to_seg.0)
            && l.graph.nodes.contains_key(l.graph.restrictions[i].via_node.0)
    &&& forall|i: int|
        0 <= i < l.pending.len() ==> l.graph.nodes.contains_key(
            (#[trigger] l.pending[i]).via_node.0,
        )
}

/// Whether one of the first `n` node records is of this stable id and place.
pub open spec fn has_node(b: Seq<u8>, n: int, t: Seq<char>, place: (i32, i32)) -> bool {
    exists|i: int|
        0 <= i < n && (#[trigger] node_at(b, i)).stable_id == t && (
            node_at(b, i).lon,
            node_at(b, i).lat,
        ) == place
}

/// Whether one of the first `n` segment records is of this stable id and describes this
/// segment.
pub open spec fn has_road(b: Seq<u8>, n: int, t: Seq<char>, road: RoadContent) -> bool {
    exists|i: int|
        0 <= i < n && (#[trigger] seg_at(b, i)).stable_id == t && road_at(b, i) == road
}

/// What the first `n` node records of `b` make of the nodes of `l`: those of `l` stay, and
/// each that is new is as one of the records says.
spec fn nodes_grown(l: LoadModel, b: Seq<u8>, m: LoadModel, n: int) -> bool {
    &&& forall|t: Seq<char>| #[trigger]
        l.node_ids.contains_key(t) ==> m.node_ids.contains_key(t) && m.node_ids[t]
            == l.node_ids[t]
    &&& forall|t: Seq<char>| #[trigger]
        m.node_ids.contains_key(t) && !l.node_ids.contains_key(t) ==> has_node(
            b,
            n,
            t,
            place_of(m.graph.nodes[m.node_ids[t].0]),
        )
    &&& forall|i: int| 0 <= i < n ==> m.node_ids.contains_key((#[trigger] node_at(b, i)).stable_id)
}

/// What the first `n` segment records of `b` make of the segments of `l`.
spec fn segs_grown(l: LoadModel, b: Seq<u8>, m: LoadModel, n: int) -> bool {
    &&& forall|t: Seq<char>| #[trigger]
        l.seg_ids.contains_key(t) ==> m.seg_ids.contains_key(t) && m.seg_ids[t] == l.seg_ids[t]
    &&& forall|t: Seq<char>| #[trigger]
        m.seg_ids.contains_key(t) && !l.seg_ids.contains_key(t) ==> has_road(
            b,
            n,
            t,
            road_content(m.graph, m.graph.segments[m.seg_ids[t].0]),
        )
    &&& forall|i: int| 0 <= i < n ==> m.seg_ids.contains_key((#[trigger] seg_at(b, i)).stable_id)
}

/// Whether the tables say which node and which segment each record is.
spec fn tables_hold(b: Seq<u8>, p: Progress, n: int, k: int) -> bool {
    &&& p.nodes.len() == n
    &&& p.segs.len() == k
    &&& forall|i: int|
        0 <= i < n ==> p.load.node_ids.contains_key((#[trigger] node_at(b, i)).stable_id)
            && p.load.node_ids[node_at(b, i).stable_id] == p.nodes[i]
    &&& forall|i: int|
        0 <= i < k ==> p.load.seg_ids.contains_key((#[trigger] seg_at(b, i)).stable_id)
            && p.load.seg_ids[seg_at(b, i).stable_id] == p.segs[i]
}

spec fn node_stage(l: LoadModel, b: Seq<u8>, p: Progress, n: int) -> bool {
    &&& p.load.consistent()
    &&& grounded(p.load)
    &&& keeps_entries(l.graph, p.load.graph)
    &&& p.load.graph.segments == l.graph.segments
    &&& p.load.graph.restrictions == l.graph.restrictions
    &&& p.load.pending == l.pending
    &&& p.load.seg_ids == l.seg_ids
    &&& p.load.next_node <= l.next_node + n
    &&& p.load.next_seg == l.next_seg
    &&& tables_hold(b, p, n, 0)
    &&& nodes_grown(l, b, p.load, n)
}

proof fn lemma_node_step(l: LoadModel, b: Seq<u8>, p: Progress, n: int)
    requires
        0 <= n,
        node_stage(l, b, p, n),
        p.load.next_node < u32::MAX,
    ensures
        node_stage(l, b, step_node(p, node_at(b, n)), n + 1),
{
    let r = node_at(b, n);
    let q = step_node(p, r);
    lemma_taking_node_consistent(p.load, r);
    let id = p.load.node_for(r.stable_id);
    assert forall|t: Seq<char>| #[trigger]
        q.load.node_ids.contains_key(t) && !l.node_ids.contains_key(t) implies has_node(
        b,
        n + 1,
        t,
        place_of(q.load.graph.nodes[q.load.node_ids[t].0]),
    ) by {
        if p.load.node_ids.contains_key(t) {
            let place = place_of(p.load.graph.nodes[p.load.node_ids[t].0]);
            assert(has_node(b, n, t, place));
            let i = choose|i: int|
                0 <= i < n && (#[trigger] node_at(b, i)).stable_id == t && (
                    node_at(b, i).lon,
                    node_at(b, i).lat,
                ) == place;
            assert(node_at(b, i).stable_id == t);
        } else {
            assert(t == r.stable_id);
            assert(!p.load.graph.nodes.contains_key(id.0));
            assert(node_at(b, n).stable_id == t);
        }
    }
}

proof fn lemma_node_stage(l: LoadModel, b: Seq<u8>, n: int)
    requires
        l.consistent(),
        grounded(l),
        0 <= n,
        l.next_node + n <= u32::MAX,
        after_nodes(l, b, n).1 is None,
    ensures
        node_stage(l, b, after_nodes(l, b, n).0, n),
    decreases n,
{
    if n > 0 {
        lemma_node_stage(l, b, n - 1);
        lemma_node_step(l, b, after_nodes(l, b, n - 1).0, n - 1);
    }
}

spec fn seg_stage(l: LoadModel, b: Seq<u8>, p: Progress, n: int) -> bool {
    &&& p.load.consistent()
    &&& grounded(p.load)
    &&& keeps_entries(l.graph, p.load.graph)
    &&& p.load.graph.restrictions == l.graph.restrictions
    &&& p.load.pending == l.pending
    &&& p.load.next_node <= l.next_node + header_of(b).nodes
    &&& p.load.next_seg <= l.next_seg + n
    &&& tables_hold(b, p, header_of(b).nodes, n)
    &&& nodes_grown(l, b, p.load, header_of(b).nodes)
    &&& segs_grown(l, b, p.load, n)
}

proof fn lemma_seg_step(l: LoadModel, b: Seq<u8>, p: Progress, n: int)
    requires
        0 <= n,
        seg_stage(l, b, p, n),
        p.load.next_seg < u32::MAX,
        seg_rec(b, header_of(b), n) is Ok,
    ensures
        seg_stage(l, b, step_seg(p, seg_at(b, n)), n + 1),
{
    let r = seg_at(b, n);
    let q = step_seg(p, r);
    let h = header_of(b);
    let id = p.load.seg_for(r.stable_id);
    assert(0 <= r.start < h.nodes && 0 <= r.end < h.nodes);
    let first = node_at(b, r.start);
    let last = node_at(b, r.end);
    assert(p.load.node_ids.contains_key(first.stable_id));
    assert(p.load.node_ids.contains_key(last.stable_id));
    lemma_taking_seg_consistent(p.load, r, p.nodes[r.start], p.nodes[r.end]);
    assert(q.load.graph.nodes == p.load.graph.nodes);
    if !p.load.seg_ids.contains_key(r.stable_id) {
        assert(!p.load.graph.segments.contains_key(id.0));
        assert(road_content(q.load.graph, q.load.graph.segments[id.0]) == road_at(b, n));
    } else {
        assert(q.load == p.load);
    }
    assert forall|t: Seq<char>| #[trigger]
        q.load.seg_ids.contains_key(t) && !l.seg_ids.contains_key(t) implies has_road(
        b,
        n + 1,
        t,
        road_content(q.load.graph, q.load.graph.segments[q.load.seg_ids[t].0]),
    ) by {
        if p.load.seg_ids.contains_key(t) {
            let road = road_content(p.load.graph, p.load.graph.segments[p.load.seg_ids[t].0]);
            assert(has_road(b, n, t, road));
            let i = choose|i: int|
                0 <= i < n && (#[trigger] seg_at(b, i)).stable_id == t && road_at(b, i) == road;
            assert(seg_at(b, i).stable_id == t);
            assert(q.load.graph.segments[q.load.seg_ids[t].0]
                == p.load.graph.segments[p.load.seg_ids[t].0]);
        } else {
            assert(t == r.stable_id);
            assert(seg_at(b, n).stable_id == t);
        }
    }
    assert(nodes_grown(l, b, q.load, h.nodes)) by {
        assert forall|t: Seq<char>| #[trigger]
            q.load.node_ids.contains_key(t) && !l.node_ids.contains_key(t) implies has_node(
            b,
            h.nodes,
            t,
            place_of(q.load.graph.nodes[q.load.node_ids[t].0]),
        ) by {
            assert(p.load.node_ids.contains_key(t));
        }
    }
    assert forall|k: u32| #[trigger]
        q.load.graph.segments.contains_key(k) implies q.load.graph.nodes.contains_key(
        q.load.graph.segments[k].start_node.0,
    ) && q.load.graph.nodes.contains_key(q.load.graph.segments[k].end_node.0) by {
        if p.load.graph.segments.contains_key(k) {
            assert(q.load.graph.segments[k] == p.load.graph.segments[k]);
        }
    }
}

proof fn lemma_seg_stage(l: LoadModel, b: Seq<u8>, n: int)
    requires
        l.consistent(),
        grounded(l),
        0 <= n,
        0 <= header_of(b).nodes,
        l.next_node + header_of(b).nodes <= u32::MAX,
        l.next_seg + n <= u32::MAX,
        after_segs(l, b, n).1 is None,
    ensures
        seg_stage(l, b, after_segs(l, b, n).0, n),
    decreases n,
{
    if n > 0 {
        lemma_seg_stage(l, b, n - 1);
        lemma_seg_step(l, b, after_segs(l, b, n - 1).0, n - 1);
    } else {
        lemma_node_stage(l, b, header_of(b).nodes);
    }
}

/// What the restriction records add to `base`.
spec fn turn_stage(b: Seq<u8>, base: Progress, p: Progress, n: int, k: int) -> bool {
    &&& p.nodes == base.nodes
    &&& p.segs == base.segs
    &&& p.load.graph.nodes == base.load.graph.nodes
    &&& p.load.graph.segments == base.load.graph.segments
    &&& p.load.node_ids == base.load.node_ids
    &&& p.load.seg_ids == base.load.seg_ids
    &&& p.load.next_node == base.load.next_node
    &&& p.load.next_seg == base.load.next_seg
    &&& grounded(p.load)
    &&& turn_list(p.load.graph, p.load.graph.restrictions) == turn_list(
        base.load.graph,
        base.load.graph.restrictions,
    ) + turns_in(b, n)
    &&& waiting_list(p.load.graph, p.load.pending) == waiting_list(
        base.load.graph,
        base.load.pending,
    ) + crosses_in(b, k)
}

proof fn lemma_turn_step(b: Seq<u8>, base: Progress, p: Progress, n: int)
    requires
        0 <= n,
        base.load.consistent(),
        tables_hold(b, base, header_of(b).nodes, header_of(b).segs),
        turn_stage(b, base, p, n, 0),
        restr_rec(b, header_of(b), n) is Ok,
    ensures
        turn_stage(b, base, step_restr(p, restr_rec(b, header_of(b), n)->Ok_0), n + 1, 0),
{
    let r: RestrRec = restr_rec(b, header_of(b), n)->Ok_0;
    let q = step_restr(p, r);
    let from = seg_at(b, r.from);
    let to = seg_at(b, r.to);
    let over = node_at(b, r.via);
    assert(base.load.seg_ids.contains_key(from.stable_id));
    assert(base.load.seg_ids.contains_key(to.stable_id));
    assert(base.load.node_ids.contains_key(over.stable_id));
    let before = turn_list(p.load.graph, p.load.graph.restrictions);
    let now = turn_list(q.load.graph, q.load.graph.restrictions);
    let turn = TurnRestriction {
        from_seg: p.segs[r.from],
        via_node: p.nodes[r.via],
        to_seg: p.segs[r.to],
    };
    assert(turn_names(q.load.graph, turn) == turn_at(b, n));
    assert(now =~= before.push(turn_at(b, n)));
    assert(turns_in(b, n).push(turn_at(b, n)) =~= turns_in(b, n + 1));
    assert(now =~= turn_list(base.load.graph, base.load.graph.restrictions) + turns_in(b, n + 1));
    assert(waiting_list(q.load.graph, q.load.pending) =~= waiting_list(
        p.load.graph,
        p.load.pending,
    ));
}

proof fn lemma_turn_stage(l: LoadModel, b: Seq<u8>, n: int)
    requires
        0 <= n,
        after_restrs(l, b, n).1 is None,
        after_segs(l, b, header_of(b).segs).1 is None,
        after_segs(l, b, header_of(b).segs).0.load.consistent(),
        grounded(after_segs(l, b, header_of(b).segs).0.load),
        tables_hold(
            b,
            after_segs(l, b, header_of(b).segs).0,
            header_of(b).nodes,
            header_of(b).segs,
        ),
    ensures
        turn_stage(b, after_segs(l, b, header_of(b).segs).0, after_restrs(l, b, n).0, n, 0),
    decreases n,
{
    let base = after_segs(l, b, header_of(b).segs).0;
    if n > 0 {
        lemma_turn_stage(l, b, n - 1);
        lemma_turn_step(b, base, after_restrs(l, b, n - 1).0, n - 1);
    } else {
        let turns = turn_list(base.load.graph, base.load.graph.restrictions);
        assert(turns + turns_in(b, 0) =~= turns);
        let waiting = waiting_list(base.load.graph, base.load.pending);
        assert(waiting + crosses_in(b, 0) =~= waiting);
    }
}

proof fn lemma_cross_step(b: Seq<u8>, base: Progress, p: Progress, n: int, k: int)
    requires
        0 <= k,
        base.load.consistent(),
        tables_hold(b, base, header_of(b).nodes, header_of(b).segs),
        turn_stage(b, base, p, n, k),
        xrestr_rec(b, header_of(b), k) is Ok,
    ensures
        turn_stage(b, base, step_xrestr(p, xrestr_rec(b, header_of(b), k)->Ok_0), n, k + 1),
{
    let r: XRestrRec = xrestr_rec(b, header_of(b), k)->Ok_0;
    let q = step_xrestr(p, r);
    let over = node_at(b, r.via);
    assert(base.load.node_ids.contains_key(over.stable_id));
    let before = waiting_list(p.load.graph, p.load.pending);
    let now = waiting_list(q.load.graph, q.load.pending);
    assert(now =~= before.push(cross_at(b, k)));
    assert(crosses_in(b, k).push(cross_at(b, k)) =~= crosses_in(b, k + 1));
    assert(now =~= waiting_list(base.load.graph, base.load.pending) + crosses_in(b, k + 1));
}

proof fn lemma_cross_stage(l: LoadModel, b: Seq<u8>, k: int)
    requires
        0 <= k,
        0 <= header_of(b).restrs,
        after_xrestrs(l, b, k).1 is None,
        after_restrs(l, b, header_of(b).restrs).1 is None,
        after_segs(l, b, header_of(b).segs).1 is None,
        after_segs(l, b, header_of(b).segs).0.load.consistent(),
        grounded(after_segs(l, b, header_of(b).segs).0.load),
        tables_hold(
            b,
            after_segs(l, b, header_of(b).segs).0,
            header_of(b).nodes,
            header_of(b).segs,
        ),
    ensures
        turn_stage(
            b,
            after_segs(l, b, header_of(b).segs).0,
            after_xrestrs(l, b, k).0,
            header_of(b).restrs,
            k,
        ),
    decreases k,
{
    let base = after_segs(l, b, header_of(b).segs).0;
    if k > 0 {
        lemma_cross_stage(l, b, k - 1);
        lemma_cross_step(b, base, after_xrestrs(l, b, k - 1).0, header_of(b).restrs, k - 1);
    } else {
        lemma_turn_stage(l, b, header_of(b).restrs);
    }
}

/// What reading a tile makes of a network.
proof fn lemma_merged(l: LoadModel, b: Seq<u8>)
    requires
        l.consistent(),
        grounded(l),
        l.has_room(b.len()),
        readable(l, b),
    ensures
        ({
            let p = merged(l, b).0;
            let h = header_of(b);
            &&& p.load.consistent()
            &&& grounded(p.load)
            &&& keeps_entries(l.graph, p.load.graph)
            &&& p.load.next_node <= l.next_node + h.nodes
            &&& p.load.next_seg <= l.next_seg + h.segs
            &&& tables_hold(b, p, h.nodes, h.segs)
            &&& nodes_grown(l, b, p.load, h.nodes)
            &&& segs_grown(l, b, p.load, h.segs)
            &&& turn_list(p.load.graph, p.load.graph.restrictions) == turn_list(
                l.graph,
                l.graph.restrictions,
            ) + turns_in(b, h.restrs)
            &&& waiting_list(p.load.graph, p.load.pending) == waiting_list(l.graph, l.pending)
                + crosses_in(b, h.xrestrs)
        }),
{
    let h = header_of(b);
    let p = merged(l, b).0;
    let base = after_segs(l, b, h.segs).0;
    assert(h.nodes <= b.len() / 28 && h.segs <= b.len() / 32);
    lemma_xrestrs_read(l, b, h.xrestrs);
    lemma_restrs_read(l, b, h.restrs);
    lemma_seg_stage(l, b, h.segs);
    lemma_cross_stage(l, b, h.xrestrs);
    law_loading_keeps_consistent(l, b);
    assert(turn_list(base.load.graph, l.graph.restrictions) =~= turn_list(
        l.graph,
        l.graph.restrictions,
    )) by {
        assert forall|i: int| 0 <= i < l.graph.restrictions.len() implies turn_names(
            base.load.graph,
            #[trigger] l.graph.restrictions[i],
        ) == turn_names(l.graph, l.graph.restrictions[i]) by {}
    }
    assert(waiting_list(base.load.graph, l.pending) =~= waiting_list(l.graph, l.pending)) by {
        assert forall|i: int| 0 <= i < l.pending.len() implies base.load.graph.nodes[(
        #[trigger] l.pending[i]).via_node.0] == l.graph.nodes[l.pending[i].via_node.0] by {}
    }
    assert(nodes_grown(l, b, p.load, h.nodes)) by {
        assert forall|t: Seq<char>| #[trigger]
            p.load.node_ids.contains_key(t) && !l.node_ids.contains_key(t) implies has_node(
            b,
            h.nodes,
            t,
            place_of(p.load.graph.nodes[p.load.node_ids[t].0]),
        ) by {
            assert(base.load.node_ids.contains_key(t));
        }
    }
    assert(segs_grown(l, b, p.load, h.segs)) by {
        assert forall|t: Seq<char>| #[trigger]
            p.load.seg_ids.contains_key(t) && !l.seg_ids.contains_key(t) implies has_road(
            b,
            h.segs,
            t,
            road_content(p.load.graph, p.load.graph.segments[p.load.seg_ids[t].0]),
        ) by {
            assert(base.load.seg_ids.contains_key(t));
            let s = base.load.graph.segments[base.load.seg_ids[t].0];
            assert(road_content(p.load.graph, s) == road_content(base.load.graph, s));
        }
    }
}

proof fn lemma_restrs_read(l: LoadModel, b: Seq<u8>, n: int)
    ensures
        after_restrs(l, b, n).1 is None ==> after_segs(l, b, header_of(b).segs).1 is None,
    decreases n,
{
    if n > 0 {
        lemma_restrs_read(l, b, n - 1);
    }
}

proof fn lemma_xrestrs_read(l: LoadModel, b: Seq<u8>, n: int)
    ensures
        after_xrestrs(l, b, n).1 is None ==> after_restrs(l, b, header_of(b).restrs).1 is None,
    decreases n,
{
    if n > 0 {
        lemma_xrestrs_read(l, b, n - 1);
    }
}

/// Whether both segments of a turn are there.
pub open spec fn both_there(roads: Map<Seq<char>, RoadContent>, c: TurnNames) -> bool {
    roads.contains_key(c.from) && roads.contains_key(c.to)
}

/// Whether both segments of a turn touch its node.
pub open spec fn both_touch(roads: Map<Seq<char>, RoadContent>, c: TurnNames) -> bool {
    &&& roads[c.from].start == c.over || roads[c.from].end == c.over
    &&& roads[c.to].start == c.over || roads[c.to].end == c.over
}

/// The turns that waiting restrictions forbid once both of their segments are there.
pub open spec fn resolved_names(
    roads: Map<Seq<char>, RoadContent>,
    waiting: Seq<TurnNames>,
) -> Seq<TurnNames>
    decreases waiting.len(),
{
    if waiting.len() == 0 {
        waiting
    } else {
        let rest = resolved_names(roads, waiting.drop_last());
        let c = waiting.last();
        if both_there(roads, c) && both_touch(roads, c) {
            rest.push(c)
        } else {
            rest
        }
    }
}

/// The restrictions that go on waiting.
pub open spec fn unresolved_names(
    roads: Map<Seq<char>, RoadContent>,
    waiting: Seq<TurnNames>,
) -> Seq<TurnNames>
    decreases waiting.len(),
{
    if waiting.len() == 0 {
        waiting
    } else {
        let rest = unresolved_names(roads, waiting.drop_last());
        if both_there(roads, waiting.last()) {
            rest
        } else {
            rest.push(waiting.last())
        }
    }
}

proof fn lemma_carrying(l: LoadModel, ids: Seq<SegmentId>, t: Seq<char>)
    requires
        l.consistent(),
        ids.no_duplicates(),
    ensures
        carrying(l.graph, ids, t) == if l.seg_ids.contains_key(t) && ids.contains(l.seg_ids[t]) {
            seq![l.seg_ids[t]]
        } else {
            Seq::empty()
        },
    decreases ids.len(),
{
    if ids.len() > 0 {
        let rest = ids.drop_last();
        let s = ids.last();
        lemma_carrying(l, rest, t);
        assert(ids[ids.len() - 1] == s);
        if l.seg_ids.contains_key(t) {
            let k = l.seg_ids[t];
            if rest.contains(k) {
                let i = choose|i: int| 0 <= i < rest.len() && rest[i] == k;
                assert(ids[i] == k);
                assert(ids.contains(k));
            }
            if ids.contains(k) && k != s {
                let i = choose|i: int| 0 <= i < ids.len() && ids[i] == k;
                assert(rest[i] == k);
            }
            if k == s {
                assert(ids.contains(k));
                if rest.contains(s) {
                    let i = choose|i: int| 0 <= i < rest.len() && rest[i] == s;
                    assert(ids[i] == s);
                }
                assert(Seq::<SegmentId>::empty().push(s) =~= seq![s]);
            }
        }
    } else {
        assert(ids =~= Seq::empty());
    }
}

/// Of a consistent network one segment at most carries a stable id.
proof fn lemma_segments_with(l: LoadModel, t: Seq<char>)
    requires
        l.consistent(),
    ensures
        segments_with(l.graph, t) == if l.seg_ids.contains_key(t) {
            seq![l.seg_ids[t]]
        } else {
            Seq::empty()
        },
{
    lemma_carrying(l, l.graph.order, t);
    if l.seg_ids.contains_key(t) {
        assert(l.graph.order.contains(l.seg_ids[t]));
    }
}

proof fn lemma_turns_between(g: GraphModel, a: SegmentId, n: NodeId, c: SegmentId)
    ensures
        turns_between(g, seq![a], n, seq![c]) == if g.touches(a, n) && g.touches(c, n) {
            seq![TurnRestriction { from_seg: a, via_node: n, to_seg: c }]
        } else {
            Seq::empty()
        },
{
    reveal_with_fuel(turns_between, 2);
    reveal_with_fuel(turns_into, 2);
    assert(seq![a].drop_last() =~= Seq::empty());
    assert(seq![c].drop_last() =~= Seq::empty());
    let turn = TurnRestriction { from_seg: a, via_node: n, to_seg: c };
    assert(Seq::<TurnRestriction>::empty().push(turn) =~= seq![turn]);
    assert(turns_into(g, a, n, seq![c]) =~= if g.touches(c, n) {
        seq![turn]
    } else {
        Seq::empty()
    });
    assert(Seq::<TurnRestriction>::empty() + turns_into(g, a, n, seq![c]) =~= turns_into(
        g,
        a,
        n,
        seq![c],
    ));
}

/// Whether a segment touches a node can be told by stable ids.
proof fn lemma_touches_by_name(l: LoadModel, t: Seq<char>, n: NodeId)
    requires
        l.consistent(),
        grounded(l),
        l.seg_ids.contains_key(t),
        l.graph.nodes.contains_key(n.0),
    ensures
        l.graph.touches(l.seg_ids[t], n) <==> roads_by_name(l)[t].start
            == l.graph.nodes[n.0].stable_id || roads_by_name(l)[t].end
            == l.graph.nodes[n.0].stable_id,
{
    let s = l.graph.segments[l.seg_ids[t].0];
    assert(l.graph.nodes.contains_key(s.start_node.0));
    assert(l.graph.nodes.contains_key(s.end_node.0));
}

proof fn lemma_resolved_by_name(l: LoadModel, pending: Seq<PendingModel>)
    requires
        l.consistent(),
        grounded(l),
        forall|i: int|
            0 <= i < pending.len() ==> l.graph.nodes.contains_key(
                (#[trigger] pending[i]).via_node.0,
            ),
    ensures
        ({
            let roads = roads_by_name(l);
            let waiting = waiting_list(l.graph, pending);
            &&& turn_list(l.graph, resolved_turns(l.graph, pending)) == resolved_names(
                roads,
                waiting,
            )
            &&& waiting_list(l.graph, unresolved(l.graph, pending)) == unresolved_names(
                roads,
                waiting,
            )
            &&& forall|i: int|
                0 <= i < resolved_turns(l.graph, pending).len() ==> {
                    let r = #[trigger] resolved_turns(l.graph, pending)[i];
                    &&& l.graph.segments.contains_key(r.from_seg.0)
                    &&& l.graph.segments.contains_key(r.to_seg.0)
                    &&& l.graph.nodes.contains_key(r.via_node.0)
                }
            &&& forall|i: int|
                0 <= i < unresolved(l.graph, pending).len() ==> l.graph.nodes.contains_key(
                    (#[trigger] unresolved(l.graph, pending)[i]).via_node.0,
                )
        }),
    decreases pending.len(),
{
    let g = l.graph;
    let roads = roads_by_name(l);
    let waiting = waiting_list(g, pending);
    if pending.len() > 0 {
        let rest = pending.drop_last();
        let c = pending.last();
        assert(pending[pending.len() - 1] == c);
        assert forall|i: int| 0 <= i < rest.len() implies g.nodes.contains_key(
            (#[trigger] rest[i]).via_node.0,
        ) by {
            assert(rest[i] == pending[i]);
        }
        lemma_resolved_by_name(l, rest);
        assert(waiting.drop_last() =~= waiting_list(g, rest));
        lemma_segments_with(l, c.from_id);
        lemma_segments_with(l, c.to_id);
        let before = resolved_turns(g, rest);
        let now = resolved_turns(g, pending);
        assert(resolvable(g, c) <==> both_there(roads, waiting.last()));
        if resolvable(g, c) {
            let from = l.seg_ids[c.from_id];
            let to = l.seg_ids[c.to_id];
            lemma_turns_between(g, from, c.via_node, to);
            lemma_touches_by_name(l, c.from_id, c.via_node);
            lemma_touches_by_name(l, c.to_id, c.via_node);
            let turn = TurnRestriction { from_seg: from, via_node: c.via_node, to_seg: to };
            if both_touch(roads, waiting.last()) {
                assert(now =~= before.push(turn));
                assert(turn_names(g, turn) == waiting.last());
                assert(turn_list(g, now) =~= turn_list(g, before).push(waiting.last()));
                assert forall|i: int| 0 <= i < now.len() implies {
                    let r = #[trigger] now[i];
                    &&& g.segments.contains_key(r.from_seg.0)
                    &&& g.segments.contains_key(r.to_seg.0)
                    &&& g.nodes.contains_key(r.via_node.0)
                } by {
                    if i < before.len() {
                        assert(now[i] == before[i]);
                    }
                }
            } else {
                assert(now =~= before);
            }
        } else {
            let u = unresolved(g, pending);
            let v = unresolved(g, rest);
            assert(waiting_list(g, u) =~= waiting_list(g, v).push(waiting.last()));
            assert forall|i: int| 0 <= i < u.len() implies g.nodes.contains_key(
                (#[trigger] u[i]).via_node.0,
            ) by {
                if i < v.len() {
                    assert(u[i] == v[i]);
                }
            }
        }
    } else {
        assert(waiting =~= Seq::empty());
        assert(turn_list(g, resolved_turns(g, pending)) =~= Seq::empty());
        assert(waiting_list(g, unresolved(g, pending)) =~= Seq::empty());
    }
}

/// What loading a tile makes of a network, told by stable ids.
spec fn load_told(l: LoadModel, b: Seq<u8>, m: LoadModel) -> bool {
    let h = header_of(b);
    let roads = roads_by_name(m);
    let waiting = waiting_list(l.graph, l.pending) + crosses_in(b, h.xrestrs);
    &&& m.consistent()
    &&& grounded(m)
    &&& keeps_entries(l.graph, m.graph)
    &&& m.next_node <= l.next_node + h.nodes
    &&& m.next_seg <= l.next_seg + h.segs
    &&& nodes_grown(l, b, m, h.nodes)
    &&& segs_grown(l, b, m, h.segs)
    &&& turn_list(m.graph, m.graph.restrictions) == turn_list(l.graph, l.graph.restrictions)
        + turns_in(b, h.restrs) + resolved_names(roads, waiting)
    &&& waiting_list(m.graph, m.pending) == unresolved_names(roads, waiting)
}

proof fn lemma_loaded(l: LoadModel, b: Seq<u8>)
    requires
        l.consistent(),
        grounded(l),
        l.has_room(b.len()),
        readable(l, b),
    ensures
        load_told(l, b, loaded(l, b)),
{
    lemma_merged(l, b);
    law_loading_keeps_consistent(l, b);
    let h = header_of(b);
    let p = merged(l, b).0.load;
    let m = loaded(l, b);
    assert(m == stitched(p));
    lemma_resolved_by_name(p, p.pending);
    let more = resolved_turns(p.graph, p.pending);
    assert(turn_list(m.graph, m.graph.restrictions) =~= turn_list(p.graph, p.graph.restrictions)
        + turn_list(p.graph, more));
    assert(waiting_list(m.graph, m.pending) =~= waiting_list(p.graph, m.pending));
    assert(roads_by_name(m) =~= roads_by_name(p));
    assert forall|i: int| 0 <= i < m.graph.restrictions.len() implies {
        let r = #[trigger] m.graph.restrictions[i];
        &&& m.graph.segments.contains_key(r.from_seg.0)
        &&& m.graph.segments.contains_key(r.to_seg.0)
        &&& m.graph.nodes.contains_key(r.via_node.0)
    } by {
        let k = p.graph.restrictions.len();
        if i < k {
            assert(m.graph.restrictions[i] == p.graph.restrictions[i]);
        } else {
            assert(m.graph.restrictions[i] == more[i - k]);
        }
    }
    assert(nodes_grown(l, b, m, h.nodes)) by {
        assert forall|t: Seq<char>| #[trigger]
            m.node_ids.contains_key(t) && !l.node_ids.contains_key(t) implies has_node(
            b,
            h.nodes,
            t,
            place_of(m.graph.nodes[m.node_ids[t].0]),
        ) by {
            assert(p.node_ids.contains_key(t));
        }
    }
    assert(segs_grown(l, b, m, h.segs)) by {
        assert forall|t: Seq<char>| #[trigger]
            m.seg_ids.contains_key(t) && !l.seg_ids.contains_key(t) implies has_road(
            b,
            h.segs,
            t,
            road_content(m.graph, m.graph.segments[m.seg_ids[t].0]),
        ) by {
            assert(p.seg_ids.contains_key(t));
            let s = p.graph.segments[p.seg_ids[t].0];
            assert(road_content(m.graph, s) == road_content(p.graph, s));
        }
    }
}

proof fn lemma_names_concat(
    roads: Map<Seq<char>, RoadContent>,
    a: Seq<TurnNames>,
    b: Seq<TurnNames>,
)
    ensures
        resolved_names(roads, a + b) == resolved_names(roads, a) + resolved_names(roads, b),
        unresolved_names(roads, a + b) == unresolved_names(roads, a) + unresolved_names(roads, b),
    decreases b.len(),
{
    if b.len() == 0 {
        assert(a + b =~= a);
        assert(resolved_names(roads, a) + resolved_names(roads, b) =~= resolved_names(roads, a));
        assert(unresolved_names(roads, a) + unresolved_names(roads, b) =~= unresolved_names(
            roads,
            a,
        ));
    } else {
        let rest = b.drop_last();
        let c = b.last();
        lemma_names_concat(roads, a, rest);
        assert((a + b).drop_last() =~= a + rest);
        assert(resolved_names(roads, a + b) =~= resolved_names(roads, a) + resolved_names(
            roads,
            b,
        ));
        assert(unresolved_names(roads, a + b) =~= unresolved_names(roads, a) + unresolved_names(
            roads,
            b,
        ));
    }
}

/// What is resolved as segments come in is what would be resolved at the end.
proof fn lemma_resolved_sooner(
    few: Map<Seq<char>, RoadContent>,
    all: Map<Seq<char>, RoadContent>,
    w: Seq<TurnNames>,
)
    requires
        forall|t: Seq<char>| #[trigger]
            few.contains_key(t) ==> all.contains_key(t) && all[t] == few[t],
    ensures
        unresolved_names(all, unresolved_names(few, w)) == unresolved_names(all, w),
        resolved_names(few, w).to_multiset().add(
            resolved_names(all, unresolved_names(few, w)).to_multiset(),
        ) == resolved_names(all, w).to_multiset(),
    decreases w.len(),
{
    broadcast use vstd::seq_lib::group_to_multiset_ensures;

    if w.len() > 0 {
        let rest = w.drop_last();
        let c = w.last();
        lemma_resolved_sooner(few, all, rest);
        let still = unresolved_names(few, rest);
        if !both_there(few, c) {
            assert(still.push(c).drop_last() =~= still);
        }
        let x = resolved_names(few, w).to_multiset();
        let y = resolved_names(all, unresolved_names(few, w)).to_multiset();
        assert(x.add(y) =~= resolved_names(all, w).to_multiset());
    } else {
        assert(w.to_multiset().add(w.to_multiset()) =~= w.to_multiset());
    }
}

/// Everything that a network speaks of is in it: so it is while nothing is loaded, and a
/// tile that is read keeps it so.
pub proof fn law_loading_keeps_grounded(l: LoadModel, b: Seq<u8>)
    requires
        l.consistent(),
        grounded(l),
        l.has_room(b.len()),
        readable(l, b),
    ensures
        grounded(LoadModel::empty()),
        grounded(loaded(l, b)),
{
    lemma_loaded(l, b);
}

/// Whether records of two tiles with one stable id say the same, the boundary flag of a
/// node aside.
pub open spec fn agree(a: Seq<u8>, b: Seq<u8>) -> bool {
    &&& forall|i: int, j: int|
        0 <= i < header_of(a).nodes && 0 <= j < header_of(b).nodes && (#[trigger] node_at(
            a,
            i,
        )).stable_id == (#[trigger] node_at(b, j)).stable_id ==> node_at(a, i).lon == node_at(
            b,
            j,
        ).lon && node_at(a, i).lat == node_at(b, j).lat
    &&& forall|i: int, j: int|
        0 <= i < header_of(a).segs && 0 <= j < header_of(b).segs && (#[trigger] seg_at(
            a,
            i,
        )).stable_id == (#[trigger] seg_at(b, j)).stable_id ==> road_at(a, i) == road_at(b, j)
}

/// What a network of two tiles holds: what one of the two tells of, and all that.
spec fn holds_both(x: LoadModel, a: Seq<u8>, b: Seq<u8>) -> bool {
    &&& forall|t: Seq<char>| #[trigger]
        x.node_ids.contains_key(t) ==> has_node(
            a,
            header_of(a).nodes,
            t,
            nodes_by_name(x)[t],
        ) || has_node(b, header_of(b).nodes, t, nodes_by_name(x)[t])
    &&& forall|t: Seq<char>| #[trigger]
        x.seg_ids.contains_key(t) ==> has_road(a, header_of(a).segs, t, roads_by_name(x)[t])
            || has_road(b, header_of(b).segs, t, roads_by_name(x)[t])
    &&& forall|i: int|
        0 <= i < header_of(a).nodes ==> x.node_ids.contains_key(
            (#[trigger] node_at(a, i)).stable_id,
        )
    &&& forall|i: int|
        0 <= i < header_of(b).nodes ==> x.node_ids.contains_key(
            (#[trigger] node_at(b, i)).stable_id,
        )
    &&& forall|i: int|
        0 <= i < header_of(a).segs ==> x.seg_ids.contains_key((#[trigger] seg_at(a, i)).stable_id)
    &&& forall|i: int|
        0 <= i < header_of(b).segs ==> x.seg_ids.contains_key((#[trigger] seg_at(b, i)).stable_id)
}

/// The forbidden turns of two tiles whose segments are all there.
spec fn turns_of_both(roads: Map<Seq<char>, RoadContent>, a: Seq<u8>, b: Seq<u8>) -> Multiset<
    TurnNames,
> {
    turns_in(a, header_of(a).restrs).to_multiset().add(
        turns_in(b, header_of(b).restrs).to_multiset(),
    ).add(resolved_names(roads, crosses_in(a, header_of(a).xrestrs)).to_multiset()).add(
        resolved_names(roads, crosses_in(b, header_of(b).xrestrs)).to_multiset(),
    )
}

spec fn waiting_of_both(roads: Map<Seq<char>, RoadContent>, a: Seq<u8>, b: Seq<u8>) -> Multiset<
    TurnNames,
> {
    unresolved_names(roads, crosses_in(a, header_of(a).xrestrs)).to_multiset().add(
        unresolved_names(roads, crosses_in(b, header_of(b).xrestrs)).to_multiset(),
    )
}

proof fn lemma_multiset_concat(a: Seq<TurnNames>, b: Seq<TurnNames>)
    ensures
        (a + b).to_multiset() == a.to_multiset().add(b.to_multiset()),
    decreases b.len(),
{
    broadcast use vstd::seq_lib::group_to_multiset_ensures;

    if b.len() == 0 {
        assert(a + b =~= a);
        assert(a.to_multiset().add(b.to_multiset()) =~= a.to_multiset());
    } else {
        lemma_multiset_concat(a, b.drop_last());
        assert(a + b =~= (a + b.drop_last()).push(b.last()));
        assert(b =~= b.drop_last().push(b.last()));
        assert((a + b).to_multiset() =~= a.to_multiset().add(b.to_multiset()));
    }
}

proof fn lemma_empty_told()
    ensures
        LoadModel::empty().consistent(),
        grounded(LoadModel::empty()),
        turn_list(LoadModel::empty().graph, LoadModel::empty().graph.restrictions)
            == Seq::<TurnNames>::empty(),
        waiting_list(LoadModel::empty().graph, LoadModel::empty().pending)
            == Seq::<TurnNames>::empty(),
{
    let l = LoadModel::empty();
    assert(turn_list(l.graph, l.graph.restrictions) =~= Seq::empty());
    assert(waiting_list(l.graph, l.pending) =~= Seq::empty());
}

/// What a network holds once two tiles were loaded into it, told by stable ids.
proof fn lemma_both_loaded(a: Seq<u8>, b: Seq<u8>)
    requires
        readable(LoadModel::empty(), a),
        LoadModel::empty().has_room(a.len()),
        readable(loaded(LoadModel::empty(), a), b),
        loaded(LoadModel::empty(), a).has_room(b.len()),
    ensures
        ({
            let x = loaded(loaded(LoadModel::empty(), a), b);
            &&& holds_both(x, a, b)
            &&& turns_by_name(x) == turns_of_both(roads_by_name(x), a, b)
            &&& waiting_by_name(x) == waiting_of_both(roads_by_name(x), a, b)
        }),
{
    let none = LoadModel::empty();
    let one = loaded(none, a);
    let x = loaded(one, b);
    lemma_empty_told();
    lemma_loaded(none, a);
    lemma_loaded(one, b);
    let few = roads_by_name(one);
    let all = roads_by_name(x);
    let ta = turns_in(a, header_of(a).restrs);
    let tb = turns_in(b, header_of(b).restrs);
    let ca = crosses_in(a, header_of(a).xrestrs);
    let cb = crosses_in(b, header_of(b).xrestrs);
    assert forall|t: Seq<char>| #[trigger] few.contains_key(t) implies all.contains_key(t)
        && all[t] == few[t] by {
        assert(one.seg_ids.contains_key(t));
        let s = one.graph.segments[one.seg_ids[t].0];
        assert(one.graph.segments.contains_key(one.seg_ids[t].0));
        assert(one.graph.nodes.contains_key(s.start_node.0));
        assert(one.graph.nodes.contains_key(s.end_node.0));
    }
    assert forall|t: Seq<char>| #[trigger] one.node_ids.contains_key(t) implies nodes_by_name(x)[t]
        == nodes_by_name(one)[t] by {
        assert(one.graph.nodes.contains_key(one.node_ids[t].0));
    }
    assert(holds_both(x, a, b)) by {
        assert forall|t: Seq<char>| #[trigger] x.node_ids.contains_key(t) implies has_node(
            a,
            header_of(a).nodes,
            t,
            nodes_by_name(x)[t],
        ) || has_node(b, header_of(b).nodes, t, nodes_by_name(x)[t]) by {
            if one.node_ids.contains_key(t) {
                assert(!none.node_ids.contains_key(t));
                assert(nodes_by_name(x)[t] == nodes_by_name(one)[t]);
            }
        }
        assert forall|t: Seq<char>| #[trigger] x.seg_ids.contains_key(t) implies has_road(
            a,
            header_of(a).segs,
            t,
            all[t],
        ) || has_road(b, header_of(b).segs, t, all[t]) by {
            if one.seg_ids.contains_key(t) {
                assert(!none.seg_ids.contains_key(t));
                assert(few.contains_key(t));
            }
        }
    }
    assert(Seq::<TurnNames>::empty() + ca =~= ca);
    assert(Seq::<TurnNames>::empty() + ta =~= ta);
    let ra = resolved_names(few, ca);
    let ua = unresolved_names(few, ca);
    lemma_names_concat(all, ua, cb);
    lemma_resolved_sooner(few, all, ca);
    let late = resolved_names(all, ua);
    let rb = resolved_names(all, cb);
    assert(turn_list(x.graph, x.graph.restrictions) == ta + ra + tb + (late + rb));
    lemma_multiset_concat(ta, ra);
    lemma_multiset_concat(ta + ra, tb);
    lemma_multiset_concat(ta + ra + tb, late + rb);
    lemma_multiset_concat(late, rb);
    assert(turns_by_name(x) =~= turns_of_both(all, a, b));
    lemma_multiset_concat(unresolved_names(all, ua), unresolved_names(all, cb));
}

proof fn lemma_same_nodes(x: LoadModel, y: LoadModel, a: Seq<u8>, b: Seq<u8>)
    requires
        holds_both(x, a, b),
        holds_both(y, b, a),
        agree(a, a),
        agree(a, b),
        agree(b, b),
    ensures
        nodes_by_name(x) == nodes_by_name(y),
{
    let p = nodes_by_name(x);
    let q = nodes_by_name(y);
    assert forall|t: Seq<char>| x.node_ids.contains_key(t) <==> #[trigger]
        y.node_ids.contains_key(t) by {
        lemma_node_known(x, y, a, b, t);
        lemma_node_known(y, x, b, a, t);
    }
    assert forall|t: Seq<char>| #[trigger] p.contains_key(t) implies p[t] == q[t] by {
        assert(x.node_ids.contains_key(t) && y.node_ids.contains_key(t));
    }
    assert(p =~= q);
}

proof fn lemma_node_known(x: LoadModel, y: LoadModel, a: Seq<u8>, b: Seq<u8>, t: Seq<char>)
    requires
        holds_both(x, a, b),
        holds_both(y, b, a),
    ensures
        x.node_ids.contains_key(t) ==> y.node_ids.contains_key(t),
{
}

proof fn lemma_same_roads_by_name(x: LoadModel, y: LoadModel, a: Seq<u8>, b: Seq<u8>)
    requires
        holds_both(x, a, b),
        holds_both(y, b, a),
        agree(a, a),
        agree(a, b),
        agree(b, b),
    ensures
        roads_by_name(x) == roads_by_name(y),
{
    let p = roads_by_name(x);
    let q = roads_by_name(y);
    assert forall|t: Seq<char>| x.seg_ids.contains_key(t) <==> #[trigger]
        y.seg_ids.contains_key(t) by {
        lemma_road_known(x, y, a, b, t);
        lemma_road_known(y, x, b, a, t);
    }
    assert forall|t: Seq<char>| #[trigger] p.contains_key(t) implies p[t] == q[t] by {
        assert(x.seg_ids.contains_key(t) && y.seg_ids.contains_key(t));
    }
    assert(p =~= q);
}

proof fn lemma_road_known(x: LoadModel, y: LoadModel, a: Seq<u8>, b: Seq<u8>, t: Seq<char>)
    requires
        holds_both(x, a, b),
        holds_both(y, b, a),
    ensures
        x.seg_ids.contains_key(t) ==> y.seg_ids.contains_key(t),
{
}

proof fn lemma_node_errors(l: LoadModel, m: LoadModel, b: Seq<u8>, n: int)
    ensures
        after_nodes(l, b, n).1 == after_nodes(m, b, n).1,
    decreases n,
{
    if n > 0 {
        lemma_node_errors(l, m, b, n - 1);
    }
}

proof fn lemma_seg_errors(l: LoadModel, m: LoadModel, b: Seq<u8>, n: int)
    ensures
        after_segs(l, b, n).1 == after_segs(m, b, n).1,
    decreases n,
{
    lemma_node_errors(l, m, b, header_of(b).nodes);
    if n > 0 {
        lemma_seg_errors(l, m, b, n - 1);
    }
}

proof fn lemma_restr_errors(l: LoadModel, m: LoadModel, b: Seq<u8>, n: int)
    ensures
        after_restrs(l, b, n).1 == after_restrs(m, b, n).1,
    decreases n,
{
    lemma_seg_errors(l, m, b, header_of(b).segs);
    if n > 0 {
        lemma_restr_errors(l, m, b, n - 1);
    }
}

proof fn lemma_xrestr_errors(l: LoadModel, m: LoadModel, b: Seq<u8>, n: int)
    ensures
        after_xrestrs(l, b, n).1 == after_xrestrs(m, b, n).1,
    decreases n,
{
    lemma_restr_errors(l, m, b, header_of(b).restrs);
    if n > 0 {
        lemma_xrestr_errors(l, m, b, n - 1);
    }
}

/// Whether a tile can be read, and what is wrong with it, does not depend on what was
/// loaded before it.
pub proof fn law_reading_depends_on_the_tile_alone(l: LoadModel, m: LoadModel, b: Seq<u8>)
    ensures
        merged(l, b).1 == merged(m, b).1,
        readable(l, b) == readable(m, b),
{
    lemma_xrestr_errors(l, m, b, header_of(b).xrestrs);
}

/// Two tiles that agree may be loaded in either order. The network holds the same: the
/// same nodes at the same places, the same segments between the same nodes, the same
/// forbidden turns and the same restrictions that wait, each told by stable ids. Only ids
/// and boundary flags may differ.
pub proof fn law_tiles_load_in_either_order(a: Seq<u8>, b: Seq<u8>)
    requires
        readable(LoadModel::empty(), a),
        readable(LoadModel::empty(), b),
        a.len() / 28 + b.len() / 28 <= u32::MAX,
        agree(a, a),
        agree(a, b),
        agree(b, b),
    ensures
        ({
            let none = LoadModel::empty();
            let x = loaded(loaded(none, a), b);
            let y = loaded(loaded(none, b), a);
            &&& readable(loaded(none, a), b)
            &&& readable(loaded(none, b), a)
            &&& nodes_by_name(x) == nodes_by_name(y)
            &&& roads_by_name(x) == roads_by_name(y)
            &&& turns_by_name(x) == turns_by_name(y)
            &&& waiting_by_name(x) == waiting_by_name(y)
        }),
{
    let none = LoadModel::empty();
    let x = loaded(loaded(none, a), b);
    let y = loaded(loaded(none, b), a);
    law_reading_depends_on_the_tile_alone(none, loaded(none, a), b);
    law_reading_depends_on_the_tile_alone(none, loaded(none, b), a);
    lemma_empty_told();
    assert(a.len() / 32 <= a.len() / 28 && b.len() / 32 <= b.len() / 28);
    lemma_loaded(none, a);
    lemma_loaded(none, b);
    assert(header_of(a).nodes <= a.len() / 28 && header_of(a).segs <= a.len() / 32);
    assert(header_of(b).nodes <= b.len() / 28 && header_of(b).segs <= b.len() / 32);
    lemma_both_loaded(a, b);
    lemma_both_loaded(b, a);
    lemma_same_nodes(x, y, a, b);
    lemma_same_roads_by_name(x, y, a, b);
    let roads = roads_by_name(x);
    assert(turns_of_both(roads, a, b) =~= turns_of_both(roads, b, a));
    assert(waiting_of_both(roads, a, b) =~= waiting_of_both(roads, b, a));
}

/// Whether no two records of a tile have one stable id.
pub open spec fn names_differ(b: Seq<u8>) -> bool {
    &&& forall|i: int, j: int|
        0 <= i < j < header_of(b).nodes ==> (#[trigger] node_at(b, i)).stable_id != (
        #[trigger] node_at(b, j)).stable_id
    &&& forall|i: int, j: int|
        0 <= i < j < header_of(b).segs ==> (#[trigger] seg_at(b, i)).stable_id != (
        #[trigger] seg_at(b, j)).stable_id
}

/// Whether no record of a tile has a stable id that is known.
pub open spec fn names_are_new(l: LoadModel, b: Seq<u8>) -> bool {
    &&& forall|i: int|
        0 <= i < header_of(b).nodes ==> !l.node_ids.contains_key(
            (#[trigger] node_at(b, i)).stable_id,
        )
    &&& forall|i: int|
        0 <= i < header_of(b).segs ==> !l.seg_ids.contains_key((#[trigger] seg_at(b, i)).stable_id)
}

/// A tile whose stable ids are new and differ gives the network a node for each node
/// record and a segment for each segment record, each as the record says.
pub proof fn law_new_records_become_the_network(l: LoadModel, b: Seq<u8>)
    requires
        l.consistent(),
        grounded(l),
        l.has_room(b.len()),
        readable(l, b),
        names_differ(b),
        names_are_new(l, b),
    ensures
        ({
            let p = merged(l, b).0;
            let g = loaded(l, b).graph;
            &&& p.nodes.len() == header_of(b).nodes
            &&& p.segs.len() == header_of(b).segs
            &&& forall|i: int|
                0 <= i < p.nodes.len() ==> {
                    let n = #[trigger] p.nodes[i];
                    &&& g.nodes.contains_key(n.0)
                    &&& g.nodes[n.0].stable_id == node_at(b, i).stable_id
                    &&& place_of(g.nodes[n.0]) == (node_at(b, i).lon, node_at(b, i).lat)
                }
            &&& forall|i: int|
                0 <= i < p.segs.len() ==> {
                    let s = #[trigger] p.segs[i];
                    &&& g.segments.contains_key(s.0)
                    &&& g.segments[s.0].stable_id == seg_at(b, i).stable_id
                    &&& road_content(g, g.segments[s.0]) == road_at(b, i)
                }
        }),
{
    lemma_merged(l, b);
    let h = header_of(b);
    let p = merged(l, b).0;
    let m = p.load;
    let g = loaded(l, b).graph;
    assert(g.nodes == m.graph.nodes && g.segments == m.graph.segments);
    assert forall|i: int| 0 <= i < p.nodes.len() implies {
        let n = #[trigger] p.nodes[i];
        &&& g.nodes.contains_key(n.0)
        &&& g.nodes[n.0].stable_id == node_at(b, i).stable_id
        &&& place_of(g.nodes[n.0]) == (node_at(b, i).lon, node_at(b, i).lat)
    } by {
        let t = node_at(b, i).stable_id;
        assert(m.node_ids.contains_key(t) && m.node_ids[t] == p.nodes[i]);
        let place = place_of(m.graph.nodes[p.nodes[i].0]);
        assert(has_node(b, h.nodes, t, place));
        let k = choose|k: int|
            0 <= k < h.nodes && (#[trigger] node_at(b, k)).stable_id == t && (
                node_at(b, k).lon,
                node_at(b, k).lat,
            ) == place;
        assert(k == i) by {
            if k < i {
                assert(node_at(b, k).stable_id != node_at(b, i).stable_id);
            } else if i < k {
                assert(node_at(b, i).stable_id != node_at(b, k).stable_id);
            }
        }
    }
    assert forall|i: int| 0 <= i < p.segs.len() implies {
        let s = #[trigger] p.segs[i];
        &&& g.segments.contains_key(s.0)
        &&& g.segments[s.0].stable_id == seg_at(b, i).stable_id
        &&& road_content(g, g.segments[s.0]) == road_at(b, i)
    } by {
        let t = seg_at(b, i).stable_id;
        assert(m.seg_ids.contains_key(t) && m.seg_ids[t] == p.segs[i]);
        let s = m.graph.segments[p.segs[i].0];
        let road = road_content(m.graph, s);
        assert(has_road(b, h.segs, t, road));
        let k = choose|k: int|
            0 <= k < h.segs && (#[trigger] seg_at(b, k)).stable_id == t && road_at(b, k) == road;
        assert(k == i) by {
            if k < i {
                assert(seg_at(b, k).stable_id != seg_at(b, i).stable_id);
            } else if i < k {
                assert(seg_at(b, i).stable_id != seg_at(b, k).stable_id);
            }
        }
        assert(road_content(g, s) == road);
    }
}

} // verus!
