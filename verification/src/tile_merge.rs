//! What loading a tile does to everything loaded before it.
use vstd::prelude::*;

use crate::graph::{GraphModel, NodeId, NodeModel, SegmentId, SegmentModel, TurnRestriction};
use crate::tile_format::{
    header_of, header_verdict, node_rec, restr_rec, seg_rec, xrestr_rec, NodeRec, RestrRec, SegRec,
    TileReadError, XRestrRec,
};

verus! {

/// A cross-tile restriction whose segments are not all loaded yet.
#[verifier::ext_equal]
pub struct PendingModel {
    pub from_id: Seq<char>,
    pub via_node: NodeId,
    pub to_id: Seq<char>,
}

/// Everything that the tiles loaded so far have left behind.
#[verifier::ext_equal]
pub struct LoadModel {
    pub graph: GraphModel,
    /// The node that each stable node id was given.
    pub node_ids: Map<Seq<char>, NodeId>,
    /// The segment that each stable segment id was given.
    pub seg_ids: Map<Seq<char>, SegmentId>,
    pub next_node: int,
    pub next_seg: int,
    pub pending: Seq<PendingModel>,
}

/// A tile on its way in: what is loaded, and the tile's own tables from local
/// index to node and segment.
#[verifier::ext_equal]
pub struct Progress {
    pub load: LoadModel,
    pub nodes: Seq<NodeId>,
    pub segs: Seq<SegmentId>,
}

impl LoadModel {
    /// Nothing was loaded.
    pub open spec fn empty() -> LoadModel {
        LoadModel {
            graph: GraphModel::empty(),
            node_ids: Map::empty(),
            seg_ids: Map::empty(),
            next_node: 0,
            next_seg: 0,
            pending: Seq::empty(),
        }
    }

    /// Whether the ids still to be given out suffice for a payload of `len` bytes.
    pub open spec fn has_room(self, len: nat) -> bool {
        &&& self.next_node + len / 28 <= u32::MAX
        &&& self.next_seg + len / 32 <= u32::MAX
    }

    /// The node for `stable_id`: the one it was given before, or else the next.
    pub open spec fn node_for(self, stable_id: Seq<char>) -> NodeId {
        if self.node_ids.contains_key(stable_id) {
            self.node_ids[stable_id]
        } else {
            NodeId(self.next_node as u32)
        }
    }

    /// The segment for `stable_id`: the one it was given before, or else the next.
    pub open spec fn seg_for(self, stable_id: Seq<char>) -> SegmentId {
        if self.seg_ids.contains_key(stable_id) {
            self.seg_ids[stable_id]
        } else {
            SegmentId(self.next_seg as u32)
        }
    }

    /// Every stable id has a node or segment of its own, and that node or segment
    /// carries the stable id.
    pub open spec fn consistent(self) -> bool {
        &&& self.graph.wf()
        &&& 0 <= self.next_node <= u32::MAX
        &&& 0 <= self.next_seg <= u32::MAX
        &&& forall|t: Seq<char>| #[trigger]
            self.node_ids.contains_key(t) ==> {
                &&& self.node_ids[t].0 < self.next_node
                &&& self.graph.nodes.contains_key(self.node_ids[t].0)
                &&& self.graph.nodes[self.node_ids[t].0].stable_id == t
            }
        &&& forall|t: Seq<char>| #[trigger]
            self.seg_ids.contains_key(t) ==> {
                &&& self.seg_ids[t].0 < self.next_seg
                &&& self.graph.segments.contains_key(self.seg_ids[t].0)
                &&& self.graph.segments[self.seg_ids[t].0].stable_id == t
            }
        &&& forall|k: u32| #[trigger]
            self.graph.nodes.contains_key(k) ==> {
                &&& self.node_ids.contains_key(self.graph.nodes[k].stable_id)
                &&& self.node_ids[self.graph.nodes[k].stable_id].0 == k
            }
        &&& forall|k: u32| #[trigger]
            self.graph.segments.contains_key(k) ==> {
                &&& self.seg_ids.contains_key(self.graph.segments[k].stable_id)
                &&& self.seg_ids[self.graph.segments[k].stable_id].0 == k
            }
    }
}

/// After a node record: a known stable id keeps its node, a new one gets the next
/// id; the node enters the network unless it is there already.
pub open spec fn taking_node(l: LoadModel, r: NodeRec) -> LoadModel {
    let id = l.node_for(r.stable_id);
    let fresh = !l.node_ids.contains_key(r.stable_id);
    LoadModel {
        graph: if l.graph.nodes.contains_key(id.0) {
            l.graph
        } else {
            l.graph.with_node(
                NodeModel {
                    id,
                    lon: r.lon,
                    lat: r.lat,
                    stable_id: r.stable_id,
                    is_boundary: r.is_boundary,
                },
            )
        },
        node_ids: if fresh {
            l.node_ids.insert(r.stable_id, id)
        } else {
            l.node_ids
        },
        next_node: if fresh {
            l.next_node + 1
        } else {
            l.next_node
        },
        ..l
    }
}

/// A node record also fills the tile's own table of nodes.
pub open spec fn step_node(p: Progress, r: NodeRec) -> Progress {
    Progress {
        load: taking_node(p.load, r),
        nodes: p.nodes.push(p.load.node_for(r.stable_id)),
        ..p
    }
}

/// After a segment record between two nodes: a known stable id keeps its segment, a
/// new one gets the next id; the segment enters the network unless it is there
/// already.
pub open spec fn taking_seg(l: LoadModel, r: SegRec, start: NodeId, end: NodeId) -> LoadModel {
    let id = l.seg_for(r.stable_id);
    let fresh = !l.seg_ids.contains_key(r.stable_id);
    LoadModel {
        graph: if l.graph.segments.contains_key(id.0) {
            l.graph
        } else {
            l.graph.with_segment(
                SegmentModel {
                    id,
                    start_node: start,
                    end_node: end,
                    geometry: r.geometry,
                    length_cm: r.length_cm,
                    frc: r.frc,
                    fow: r.fow,
                    direction: r.direction,
                    stable_id: r.stable_id,
                    source_id: Seq::new(16, |k: int| 0u8),
                },
            )
        },
        seg_ids: if fresh {
            l.seg_ids.insert(r.stable_id, id)
        } else {
            l.seg_ids
        },
        next_seg: if fresh {
            l.next_seg + 1
        } else {
            l.next_seg
        },
        ..l
    }
}

/// A segment record also fills the tile's own table of segments.
pub open spec fn step_seg(p: Progress, r: SegRec) -> Progress {
    Progress {
        load: taking_seg(p.load, r, p.nodes[r.start], p.nodes[r.end]),
        segs: p.segs.push(p.load.seg_for(r.stable_id)),
        ..p
    }
}

/// After a restriction record: the turn is forbidden.
pub open spec fn step_restr(p: Progress, r: RestrRec) -> Progress {
    Progress {
        load: LoadModel {
            graph: p.load.graph.with_restriction(
                TurnRestriction {
                    from_seg: p.segs[r.from],
                    via_node: p.nodes[r.via],
                    to_seg: p.segs[r.to],
                },
            ),
            ..p.load
        },
        ..p
    }
}

/// After a cross restriction record: it waits for its segments.
pub open spec fn step_xrestr(p: Progress, r: XRestrRec) -> Progress {
    Progress {
        load: LoadModel {
            pending: p.load.pending.push(
                PendingModel {
                    from_id: r.from_id,
                    via_node: p.nodes[r.via],
                    to_id: r.to_id,
                },
            ),
            ..p.load
        },
        ..p
    }
}

/// The outcome of taking in records 0, 1, .. in turn, `n` of them: those before
/// the first unreadable one have taken effect, and its error is the second part.
pub open spec fn absorb<R>(
    p: Progress,
    read: spec_fn(int) -> Result<R, TileReadError>,
    step: spec_fn(Progress, R) -> Progress,
    n: int,
) -> (Progress, Option<TileReadError>)
    decreases n,
{
    if n <= 0 {
        (p, None)
    } else {
        let (q, e) = absorb(p, read, step, n - 1);
        match e {
            Some(e) => (q, Some(e)),
            None => match read(n - 1) {
                Ok(r) => (step(q, r), None),
                Err(e) => (q, Some(e)),
            },
        }
    }
}

pub open spec fn node_reader(b: Seq<u8>) -> spec_fn(int) -> Result<NodeRec, TileReadError> {
    |i: int| node_rec(b, header_of(b), i)
}

pub open spec fn seg_reader(b: Seq<u8>) -> spec_fn(int) -> Result<SegRec, TileReadError> {
    |i: int| seg_rec(b, header_of(b), i)
}

pub open spec fn restr_reader(b: Seq<u8>) -> spec_fn(int) -> Result<RestrRec, TileReadError> {
    |i: int| restr_rec(b, header_of(b), i)
}

pub open spec fn xrestr_reader(b: Seq<u8>) -> spec_fn(int) -> Result<XRestrRec, TileReadError> {
    |i: int| xrestr_rec(b, header_of(b), i)
}

/// After the first `n` node records of `b`.
pub open spec fn after_nodes(l: LoadModel, b: Seq<u8>, n: int) -> (
    Progress,
    Option<TileReadError>,
) {
    absorb(
        Progress { load: l, nodes: Seq::empty(), segs: Seq::empty() },
        node_reader(b),
        |p: Progress, r: NodeRec| step_node(p, r),
        n,
    )
}

/// After all nodes and the first `n` segment records of `b`.
pub open spec fn after_segs(l: LoadModel, b: Seq<u8>, n: int) -> (
    Progress,
    Option<TileReadError>,
) {
    let (p, e) = after_nodes(l, b, header_of(b).nodes);
    match e {
        Some(e) => (p, Some(e)),
        None => absorb(p, seg_reader(b), |p: Progress, r: SegRec| step_seg(p, r), n),
    }
}

/// After all nodes, all segments and the first `n` restriction records of `b`.
pub open spec fn after_restrs(l: LoadModel, b: Seq<u8>, n: int) -> (
    Progress,
    Option<TileReadError>,
) {
    let (p, e) = after_segs(l, b, header_of(b).segs);
    match e {
        Some(e) => (p, Some(e)),
        None => absorb(p, restr_reader(b), |p: Progress, r: RestrRec| step_restr(p, r), n),
    }
}

/// After all nodes, segments and restrictions, and the first `n` cross restriction
/// records of `b`.
pub open spec fn after_xrestrs(l: LoadModel, b: Seq<u8>, n: int) -> (
    Progress,
    Option<TileReadError>,
) {
    let (p, e) = after_restrs(l, b, header_of(b).restrs);
    match e {
        Some(e) => (p, Some(e)),
        None => absorb(p, xrestr_reader(b), |p: Progress, r: XRestrRec| step_xrestr(p, r), n),
    }
}

/// The outcome of reading a whole payload whose header is in order: the records
/// before the first unreadable one have taken effect.
pub open spec fn merged(l: LoadModel, b: Seq<u8>) -> (Progress, Option<TileReadError>) {
    after_xrestrs(l, b, header_of(b).xrestrs)
}

/// Nothing is taken in after an unreadable record.
pub proof fn lemma_absorb_stops<R>(
    p: Progress,
    read: spec_fn(int) -> Result<R, TileReadError>,
    step: spec_fn(Progress, R) -> Progress,
    k: int,
    n: int,
)
    requires
        k <= n,
        absorb(p, read, step, k).1 is Some,
    ensures
        absorb(p, read, step, n) == absorb(p, read, step, k),
    decreases n - k,
{
    if k < n {
        lemma_absorb_stops(p, read, step, k, n - 1);
        if n <= 0 {
            assert(absorb(p, read, step, k).1 is None);
        }
    }
}

/// What a payload leaves behind, read or refused.
pub open spec fn parsed_load(l: LoadModel, b: Seq<u8>) -> LoadModel {
    if header_verdict(b, None) {
        merged(l, b).0.load
    } else {
        l
    }
}

/// Whether `r` is what reading a payload reports: the tile's own tables, or the
/// first thing that is wrong with it.
pub open spec fn parse_result(
    l: LoadModel,
    b: Seq<u8>,
    r: Result<(Seq<NodeId>, Seq<SegmentId>), TileReadError>,
) -> bool {
    let (p, e) = merged(l, b);
    if !header_verdict(b, None) {
        r matches Err(e) && header_verdict(b, Some(e))
    } else {
        r == match e {
            Some(e) => Err((e)),
            None => Ok((p.nodes, p.segs)),
        }
    }
}

pub proof fn lemma_nodes_stop(l: LoadModel, b: Seq<u8>, k: int)
    requires
        k <= header_of(b).nodes,
        after_nodes(l, b, k).1 is Some,
    ensures
        merged(l, b) == after_nodes(l, b, k),
{
    lemma_absorb_stops(
        Progress { load: l, nodes: Seq::empty(), segs: Seq::empty() },
        node_reader(b),
        |p: Progress, r: NodeRec| step_node(p, r),
        k,
        header_of(b).nodes,
    );
}

pub proof fn lemma_segs_stop(l: LoadModel, b: Seq<u8>, k: int)
    requires
        k <= header_of(b).segs,
        after_nodes(l, b, header_of(b).nodes).1 is None,
        after_segs(l, b, k).1 is Some,
    ensures
        merged(l, b) == after_segs(l, b, k),
{
    lemma_absorb_stops(
        after_nodes(l, b, header_of(b).nodes).0,
        seg_reader(b),
        |p: Progress, r: SegRec| step_seg(p, r),
        k,
        header_of(b).segs,
    );
}

pub proof fn lemma_restrs_stop(l: LoadModel, b: Seq<u8>, k: int)
    requires
        k <= header_of(b).restrs,
        after_segs(l, b, header_of(b).segs).1 is None,
        after_restrs(l, b, k).1 is Some,
    ensures
        merged(l, b) == after_restrs(l, b, k),
{
    lemma_absorb_stops(
        after_segs(l, b, header_of(b).segs).0,
        restr_reader(b),
        |p: Progress, r: RestrRec| step_restr(p, r),
        k,
        header_of(b).restrs,
    );
}

pub proof fn lemma_xrestrs_stop(l: LoadModel, b: Seq<u8>, k: int)
    requires
        k <= header_of(b).xrestrs,
        after_restrs(l, b, header_of(b).restrs).1 is None,
        after_xrestrs(l, b, k).1 is Some,
    ensures
        merged(l, b) == after_xrestrs(l, b, k),
{
    lemma_absorb_stops(
        after_restrs(l, b, header_of(b).restrs).0,
        xrestr_reader(b),
        |p: Progress, r: XRestrRec| step_xrestr(p, r),
        k,
        header_of(b).xrestrs,
    );
}

/// Those of `ids` that carry the stable id `t`.
pub open spec fn carrying(g: GraphModel, ids: Seq<SegmentId>, t: Seq<char>) -> Seq<SegmentId>
    decreases ids.len(),
{
    if ids.len() == 0 {
        ids
    } else {
        let rest = carrying(g, ids.drop_last(), t);
        let s = ids.last();
        if g.segments.contains_key(s.0) && g.segments[s.0].stable_id == t {
            rest.push(s)
        } else {
            rest
        }
    }
}

/// The loaded segments that carry the stable id `t`, oldest first.
pub open spec fn segments_with(g: GraphModel, t: Seq<char>) -> Seq<SegmentId> {
    carrying(g, g.order, t)
}

/// The turns over `via` from `from` into those of `tos` that touch `via`.
pub open spec fn turns_into(
    g: GraphModel,
    from: SegmentId,
    via: NodeId,
    tos: Seq<SegmentId>,
) -> Seq<TurnRestriction>
    decreases tos.len(),
{
    if tos.len() == 0 {
        Seq::empty()
    } else {
        let rest = turns_into(g, from, via, tos.drop_last());
        if g.touches(tos.last(), via) {
            rest.push(TurnRestriction { from_seg: from, via_node: via, to_seg: tos.last() })
        } else {
            rest
        }
    }
}

/// The turns over `via` from those of `froms` that touch `via` into those of `tos`
/// that touch `via`.
pub open spec fn turns_between(
    g: GraphModel,
    froms: Seq<SegmentId>,
    via: NodeId,
    tos: Seq<SegmentId>,
) -> Seq<TurnRestriction>
    decreases froms.len(),
{
    if froms.len() == 0 {
        Seq::empty()
    } else {
        let rest = turns_between(g, froms.drop_last(), via, tos);
        if g.touches(froms.last(), via) {
            rest + turns_into(g, froms.last(), via, tos)
        } else {
            rest
        }
    }
}

/// Whether both stable ids of a cross-tile restriction are loaded.
pub open spec fn resolvable(g: GraphModel, p: PendingModel) -> bool {
    segments_with(g, p.from_id).len() > 0 && segments_with(g, p.to_id).len() > 0
}

/// The turns that the resolvable ones of `pending` forbid, in their order.
pub open spec fn resolved_turns(g: GraphModel, pending: Seq<PendingModel>) -> Seq<
    TurnRestriction,
>
    decreases pending.len(),
{
    if pending.len() == 0 {
        Seq::empty()
    } else {
        let rest = resolved_turns(g, pending.drop_last());
        let p = pending.last();
        if resolvable(g, p) {
            rest + turns_between(
                g,
                segments_with(g, p.from_id),
                p.via_node,
                segments_with(g, p.to_id),
            )
        } else {
            rest
        }
    }
}

/// Those of `pending` that are not resolvable, in their order.
pub open spec fn unresolved(g: GraphModel, pending: Seq<PendingModel>) -> Seq<PendingModel>
    decreases pending.len(),
{
    if pending.len() == 0 {
        pending
    } else {
        let rest = unresolved(g, pending.drop_last());
        if resolvable(g, pending.last()) {
            rest
        } else {
            rest.push(pending.last())
        }
    }
}

/// `g` with more forbidden turns at the end.
pub open spec fn with_turns(g: GraphModel, turns: Seq<TurnRestriction>) -> GraphModel {
    GraphModel { restrictions: g.restrictions + turns, ..g }
}

/// Resolving what can be resolved: each pending restriction whose two stable ids
/// are both loaded turns into forbidden turns and stops waiting.
pub open spec fn stitched(l: LoadModel) -> LoadModel {
    LoadModel {
        graph: with_turns(l.graph, resolved_turns(l.graph, l.pending)),
        pending: unresolved(l.graph, l.pending),
        ..l
    }
}

/// What loading tiles one after another leaves behind.
pub open spec fn loaded_all(l: LoadModel, tiles: Seq<Seq<u8>>) -> LoadModel
    decreases tiles.len(),
{
    if tiles.len() == 0 {
        l
    } else {
        loaded(loaded_all(l, tiles.drop_last()), tiles.last())
    }
}

/// Whether the ids suffice for tiles that are loaded one after another.
pub open spec fn room_for_all(l: LoadModel, tiles: Seq<Seq<u8>>) -> bool
    decreases tiles.len(),
{
    tiles.len() > 0 ==> room_for_all(l, tiles.drop_last()) && loaded_all(
        l,
        tiles.drop_last(),
    ).has_room(tiles.last().len())
}

/// Whether every record of a payload can be read.
pub open spec fn readable(l: LoadModel, b: Seq<u8>) -> bool {
    header_verdict(b, None) && merged(l, b).1 is None
}

/// What loading a payload leaves behind: cross-tile restrictions are stitched once
/// every record has been read.
pub open spec fn loaded(l: LoadModel, b: Seq<u8>) -> LoadModel {
    if readable(l, b) {
        stitched(parsed_load(l, b))
    } else {
        parsed_load(l, b)
    }
}

} // verus!
