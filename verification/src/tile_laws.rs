//! What holds of loading tiles, whatever the tiles.
use vstd::prelude::*;

use crate::graph::{
    lemma_with_segment_wf, touching_at, GraphModel, NodeId, SegmentId, TileKey, TurnRestriction,
};
use crate::tile_format::{
    header_of, header_verdict, node_rec, seg_rec, NodeRec, SegRec, TileReadError,
};
use crate::tile_merge::{
    after_nodes, after_restrs, after_segs, after_xrestrs, carrying, loaded, loaded_all, merged,
    parsed_load, readable, resolvable, resolved_turns, room_for_all, step_node, step_seg, stitched,
    taking_node, taking_seg, unresolved, LoadModel, PendingModel, Progress,
};

verus! {

/// A table has one entry per record taken in.
proof fn lemma_nodes_len(l: LoadModel, b: Seq<u8>, n: int)
    requires
        0 <= n,
        after_nodes(l, b, n).1 is None,
    ensures
        after_nodes(l, b, n).0.nodes.len() == n,
        after_nodes(l, b, n).0.segs.len() == 0,
    decreases n,
{
    if n > 0 {
        lemma_nodes_len(l, b, n - 1);
    }
}

proof fn lemma_segs_len(l: LoadModel, b: Seq<u8>, n: int)
    requires
        0 <= n,
        0 <= header_of(b).nodes,
        after_segs(l, b, n).1 is None,
    ensures
        after_segs(l, b, n).0.nodes == after_nodes(l, b, header_of(b).nodes).0.nodes,
        after_segs(l, b, n).0.segs.len() == n,
    decreases n,
{
    if n > 0 {
        lemma_segs_len(l, b, n - 1);
    } else {
        lemma_nodes_len(l, b, header_of(b).nodes);
    }
}

proof fn lemma_restrs_tables(l: LoadModel, b: Seq<u8>, n: int)
    ensures
        after_restrs(l, b, n).1 is None ==> {
            &&& after_segs(l, b, header_of(b).segs).1 is None
            &&& after_restrs(l, b, n).0.nodes == after_segs(l, b, header_of(b).segs).0.nodes
            &&& after_restrs(l, b, n).0.segs == after_segs(l, b, header_of(b).segs).0.segs
        },
    decreases n,
{
    if n > 0 {
        lemma_restrs_tables(l, b, n - 1);
    }
}

proof fn lemma_xrestrs_tables(l: LoadModel, b: Seq<u8>, n: int)
    ensures
        after_xrestrs(l, b, n).1 is None ==> {
            &&& after_restrs(l, b, header_of(b).restrs).1 is None
            &&& after_xrestrs(l, b, n).0.nodes == after_restrs(
                l,
                b,
                header_of(b).restrs,
            ).0.nodes
            &&& after_xrestrs(l, b, n).0.segs == after_restrs(l, b, header_of(b).restrs).0.segs
        },
    decreases n,
{
    if n > 0 {
        lemma_xrestrs_tables(l, b, n - 1);
    }
}

/// The tables of a tile that can be read have one entry per node record and one per
/// segment record.
pub proof fn lemma_table_lengths(l: LoadModel, b: Seq<u8>)
    requires
        readable(l, b),
    ensures
        merged(l, b).0.nodes.len() == header_of(b).nodes,
        merged(l, b).0.segs.len() == header_of(b).segs,
        header_of(b).nodes < 0x1_0000_0000,
        header_of(b).segs < 0x1_0000_0000,
{
    let h = header_of(b);
    assert(0 <= h.nodes < 0x1_0000_0000 && 0 <= h.segs < 0x1_0000_0000);
    lemma_xrestrs_tables(l, b, h.xrestrs);
    lemma_restrs_tables(l, b, h.restrs);
    lemma_segs_len(l, b, h.segs);
    lemma_nodes_len(l, b, h.nodes);
}

pub proof fn lemma_taking_node_consistent(l: LoadModel, r: NodeRec)
    requires
        l.consistent(),
        l.next_node < u32::MAX,
    ensures
        taking_node(l, r).consistent(),
        taking_node(l, r).next_node <= l.next_node + 1,
        taking_node(l, r).next_seg == l.next_seg,
        taking_node(l, r).node_ids.contains_key(r.stable_id),
        taking_node(l, r).node_ids[r.stable_id] == l.node_for(r.stable_id),
        forall|t: Seq<char>| #[trigger]
            l.node_ids.contains_key(t) ==> taking_node(l, r).node_ids.contains_key(t)
                && taking_node(l, r).node_ids[t] == l.node_ids[t],
{
    let q = taking_node(l, r);
    let id = l.node_for(r.stable_id);
    if !l.node_ids.contains_key(r.stable_id) {
        assert(!l.graph.nodes.contains_key(id.0));
    }
    assert forall|n: NodeId, s: SegmentId| #[trigger]
        touching_at(q.graph.touching, n).contains(s) <==> q.graph.touches(
        s,
        n,
    ) by {
        assert(touching_at(l.graph.touching, n).contains(s) <==> l.graph.touches(
            s,
            n,
        ));
    }
}

pub proof fn lemma_taking_seg_consistent(l: LoadModel, r: SegRec, a: NodeId, b: NodeId)
    requires
        l.consistent(),
        l.next_seg < u32::MAX,
    ensures
        taking_seg(l, r, a, b).consistent(),
        taking_seg(l, r, a, b).next_seg <= l.next_seg + 1,
        taking_seg(l, r, a, b).next_node == l.next_node,
        taking_seg(l, r, a, b).node_ids == l.node_ids,
        taking_seg(l, r, a, b).seg_ids.contains_key(r.stable_id),
        taking_seg(l, r, a, b).seg_ids[r.stable_id] == l.seg_for(r.stable_id),
        forall|t: Seq<char>| #[trigger]
            l.seg_ids.contains_key(t) ==> taking_seg(l, r, a, b).seg_ids.contains_key(t)
                && taking_seg(l, r, a, b).seg_ids[t] == l.seg_ids[t],
{
    let q = taking_seg(l, r, a, b);
    let id = l.seg_for(r.stable_id);
    if !l.seg_ids.contains_key(r.stable_id) {
        assert(!l.graph.segments.contains_key(id.0));
    }
    if !l.graph.segments.contains_key(id.0) {
        lemma_with_segment_wf(l.graph, q.graph.segments[id.0]);
    }
}

/// Stands for `consistent` where only the word matters.
#[verifier::opaque]
spec fn sound(l: LoadModel) -> bool {
    l.consistent()
}

/// Every node table entry is the node that its record's stable id was given.
#[verifier::opaque]
spec fn nodes_as_given(p: Progress, b: Seq<u8>, n: int) -> bool {
    forall|i: int|
        0 <= i < n ==> ({
            let r = #[trigger] node_rec(b, header_of(b), i);
            &&& r is Ok
            &&& p.load.node_ids.contains_key(r->Ok_0.stable_id)
            &&& p.load.node_ids[r->Ok_0.stable_id] == p.nodes[i]
        })
}

/// Every segment table entry is the segment that its record's stable id was given.
#[verifier::opaque]
spec fn segs_as_given(p: Progress, b: Seq<u8>, n: int) -> bool {
    forall|i: int|
        0 <= i < n ==> ({
            let r = #[trigger] seg_rec(b, header_of(b), i);
            &&& r is Ok
            &&& p.load.seg_ids.contains_key(r->Ok_0.stable_id)
            &&& p.load.seg_ids[r->Ok_0.stable_id] == p.segs[i]
        })
}

/// `m` keeps what `l` has given out.
#[verifier::opaque]
spec fn keeps_ids<T>(l: Map<Seq<char>, T>, m: Map<Seq<char>, T>) -> bool {
    forall|t: Seq<char>| #[trigger]
        l.contains_key(t) ==> m.contains_key(t) && m[t] == l[t]
}

proof fn lemma_node_step(p: Progress, b: Seq<u8>, n: int)
    requires
        0 <= n,
        sound(p.load),
        p.load.next_node < u32::MAX,
        p.nodes.len() == n,
        nodes_as_given(p, b, n),
        node_rec(b, header_of(b), n) is Ok,
    ensures
        ({
            let q = step_node(p, node_rec(b, header_of(b), n)->Ok_0);
            &&& sound(q.load)
            &&& q.load.next_node <= p.load.next_node + 1
            &&& nodes_as_given(q, b, n + 1)
            &&& keeps_ids(p.load.node_ids, q.load.node_ids)
        }),
{
    reveal(sound);
    reveal(nodes_as_given);
    reveal(keeps_ids);
    lemma_taking_node_consistent(p.load, node_rec(b, header_of(b), n)->Ok_0);
}

proof fn lemma_seg_step(p: Progress, b: Seq<u8>, n: int)
    requires
        0 <= n,
        sound(p.load),
        p.load.next_seg < u32::MAX,
        p.segs.len() == n,
        segs_as_given(p, b, n),
        seg_rec(b, header_of(b), n) is Ok,
    ensures
        ({
            let q = step_seg(p, seg_rec(b, header_of(b), n)->Ok_0);
            &&& sound(q.load)
            &&& q.load.next_seg <= p.load.next_seg + 1
            &&& segs_as_given(q, b, n + 1)
            &&& keeps_ids(p.load.seg_ids, q.load.seg_ids)
        }),
{
    reveal(sound);
    reveal(segs_as_given);
    reveal(keeps_ids);
    let r = seg_rec(b, header_of(b), n)->Ok_0;
    lemma_taking_seg_consistent(p.load, r, p.nodes[r.start], p.nodes[r.end]);
}

proof fn lemma_keeps_trans<T>(
    l: Map<Seq<char>, T>,
    m: Map<Seq<char>, T>,
    n: Map<Seq<char>, T>,
)
    requires
        keeps_ids(l, m),
        keeps_ids(m, n),
    ensures
        keeps_ids(l, n),
{
    reveal(keeps_ids);
}

proof fn lemma_nodes_consistent(l: LoadModel, b: Seq<u8>, n: int)
    requires
        sound(l),
        0 <= n,
        l.next_node + n <= u32::MAX,
    ensures
        ({
            let (p, e) = after_nodes(l, b, n);
            &&& sound(p.load)
            &&& p.load.next_node <= l.next_node + n
            &&& p.load.next_seg == l.next_seg
            &&& p.load.seg_ids == l.seg_ids
            &&& keeps_ids(l.node_ids, p.load.node_ids)
            &&& e is None ==> nodes_as_given(p, b, n)
        }),
    decreases n,
{
    if n > 0 {
        lemma_nodes_consistent(l, b, n - 1);
        let (q, e) = after_nodes(l, b, n - 1);
        if e is None {
            lemma_nodes_len(l, b, n - 1);
            if node_rec(b, header_of(b), n - 1) is Ok {
                lemma_node_step(q, b, n - 1);
                lemma_keeps_trans(
                    l.node_ids,
                    q.load.node_ids,
                    after_nodes(l, b, n).0.load.node_ids,
                );
            }
        }
    } else {
        reveal(nodes_as_given);
        reveal(keeps_ids);
    }
}

proof fn lemma_segs_consistent(l: LoadModel, b: Seq<u8>, n: int)
    requires
        sound(l),
        0 <= n,
        0 <= header_of(b).nodes,
        l.next_node + header_of(b).nodes <= u32::MAX,
        l.next_seg + n <= u32::MAX,
    ensures
        ({
            let (p, e) = after_segs(l, b, n);
            &&& sound(p.load)
            &&& p.load.next_seg <= l.next_seg + n
            &&& p.load.node_ids == after_nodes(l, b, header_of(b).nodes).0.load.node_ids
            &&& keeps_ids(l.seg_ids, p.load.seg_ids)
            &&& e is None ==> segs_as_given(p, b, n)
        }),
    decreases n,
{
    lemma_nodes_consistent(l, b, header_of(b).nodes);
    if n > 0 {
        lemma_segs_consistent(l, b, n - 1);
        let (q, e) = after_segs(l, b, n - 1);
        if e is None {
            lemma_segs_len(l, b, n - 1);
            if seg_rec(b, header_of(b), n - 1) is Ok {
                lemma_seg_step(q, b, n - 1);
                lemma_keeps_trans(
                    l.seg_ids,
                    q.load.seg_ids,
                    after_segs(l, b, n).0.load.seg_ids,
                );
            }
        }
    } else {
        reveal(segs_as_given);
        reveal(keeps_ids);
    }
}

/// `q` differs from `p` at most in the forbidden turns and what waits.
spec fn same_roads(p: LoadModel, q: LoadModel) -> bool {
    &&& q.graph.nodes == p.graph.nodes
    &&& q.graph.segments == p.graph.segments
    &&& q.graph.order == p.graph.order
    &&& q.graph.touching == p.graph.touching
    &&& q.graph.loaded == p.graph.loaded
    &&& q.node_ids == p.node_ids
    &&& q.seg_ids == p.seg_ids
    &&& q.next_node == p.next_node
    &&& q.next_seg == p.next_seg
}

proof fn lemma_same_roads_consistent(p: LoadModel, q: LoadModel)
    requires
        same_roads(p, q),
        p.consistent(),
    ensures
        q.consistent(),
{
    assert forall|n: NodeId, s: SegmentId| #[trigger]
        touching_at(q.graph.touching, n).contains(s) <==> q.graph.touches(
        s,
        n,
    ) by {
        assert(touching_at(p.graph.touching, n).contains(s) <==> p.graph.touches(
            s,
            n,
        ));
    }
}

proof fn lemma_restrs_same_roads(l: LoadModel, b: Seq<u8>, n: int)
    ensures
        same_roads(
            after_segs(l, b, header_of(b).segs).0.load,
            after_restrs(l, b, n).0.load,
        ),
    decreases n,
{
    if n > 0 {
        lemma_restrs_same_roads(l, b, n - 1);
    }
}

proof fn lemma_xrestrs_same_roads(l: LoadModel, b: Seq<u8>, n: int)
    ensures
        same_roads(
            after_restrs(l, b, header_of(b).restrs).0.load,
            after_xrestrs(l, b, n).0.load,
        ),
    decreases n,
{
    if n > 0 {
        lemma_xrestrs_same_roads(l, b, n - 1);
    }
}

proof fn lemma_merged_same_roads(l: LoadModel, b: Seq<u8>)
    ensures
        same_roads(after_segs(l, b, header_of(b).segs).0.load, merged(l, b).0.load),
{
    lemma_restrs_same_roads(l, b, header_of(b).restrs);
    lemma_xrestrs_same_roads(l, b, header_of(b).xrestrs);
}

/// Loading a tile, readable or not, keeps the network consistent: every stable id
/// has one node or segment, which carries that stable id, and the other way round;
/// the lists of touching segments stay exact.
pub proof fn law_loading_keeps_consistent(l: LoadModel, b: Seq<u8>)
    requires
        l.consistent(),
        l.has_room(b.len()),
    ensures
        parsed_load(l, b).consistent(),
        loaded(l, b).consistent(),
{
    if header_verdict(b, None) {
        let h = header_of(b);
        assert(h.nodes <= b.len() / 28 && h.segs <= b.len() / 32);
        reveal(sound);
        lemma_segs_consistent(l, b, h.segs);
        lemma_merged_same_roads(l, b);
        lemma_same_roads_consistent(after_segs(l, b, h.segs).0.load, merged(l, b).0.load);
        let m = merged(l, b).0.load;
        lemma_same_roads_consistent(m, stitched(m));
    }
}

/// Stitching keeps the network consistent.
pub proof fn law_stitching_keeps_consistent(l: LoadModel)
    requires
        l.consistent(),
    ensures
        stitched(l).consistent(),
{
    lemma_same_roads_consistent(l, stitched(l));
}

/// Recording a tile as loaded keeps the network consistent.
pub proof fn law_recording_keeps_consistent(l: LoadModel, k: TileKey)
    requires
        l.consistent(),
    ensures
        (LoadModel { graph: l.graph.with_loaded(k), ..l }).consistent(),
{
    let m = LoadModel { graph: l.graph.with_loaded(k), ..l };
    assert forall|n: NodeId, s: SegmentId| #[trigger]
        touching_at(m.graph.touching, n).contains(s) <==> m.graph.touches(s, n) by {
        assert(touching_at(l.graph.touching, n).contains(s) <==> l.graph.touches(s, n));
    }
}

/// In a consistent network two stable ids never share a node or a segment.
pub proof fn law_stable_ids_are_distinct(l: LoadModel, t: Seq<char>, u: Seq<char>)
    requires
        l.consistent(),
    ensures
        l.node_ids.contains_key(t) && l.node_ids.contains_key(u) ==> (l.node_ids[t]
            == l.node_ids[u] <==> t == u),
        l.seg_ids.contains_key(t) && l.seg_ids.contains_key(u) ==> (l.seg_ids[t] == l.seg_ids[u]
            <==> t == u),
{
}

/// Two node records of a tile end up as one node exactly if they have one stable
/// id, and a stable id known from an earlier tile keeps the node it had: this is how
/// tiles are stitched together at boundary nodes.
pub proof fn law_nodes_stitch_by_stable_id(l: LoadModel, b: Seq<u8>, i: int, j: int)
    requires
        l.consistent(),
        l.has_room(b.len()),
        readable(l, b),
        0 <= i < header_of(b).nodes,
        0 <= j < header_of(b).nodes,
    ensures
        ({
            let p = merged(l, b).0;
            let t = node_rec(b, header_of(b), i)->Ok_0.stable_id;
            let u = node_rec(b, header_of(b), j)->Ok_0.stable_id;
            &&& p.nodes[i] == p.nodes[j] <==> t == u
            &&& l.node_ids.contains_key(t) ==> p.nodes[i] == l.node_ids[t]
        }),
{
    let h = header_of(b);
    assert(h.nodes <= b.len() / 28 && h.segs <= b.len() / 32);
    lemma_table_lengths(l, b);
    lemma_xrestrs_tables(l, b, h.xrestrs);
    lemma_restrs_tables(l, b, h.restrs);
    lemma_segs_len(l, b, h.segs);
    reveal(sound);
    reveal(nodes_as_given);
    reveal(keeps_ids);
    lemma_nodes_consistent(l, b, h.nodes);
    let q = after_nodes(l, b, h.nodes).0;
    assert(merged(l, b).0.nodes == q.nodes);
    law_stable_ids_are_distinct(
        q.load,
        node_rec(b, h, i)->Ok_0.stable_id,
        node_rec(b, h, j)->Ok_0.stable_id,
    );
}

/// Two segment records of a tile end up as one segment exactly if they have one
/// stable id, and a stable id known from an earlier tile keeps the segment it had.
pub proof fn law_segments_stitch_by_stable_id(l: LoadModel, b: Seq<u8>, i: int, j: int)
    requires
        l.consistent(),
        l.has_room(b.len()),
        readable(l, b),
        0 <= i < header_of(b).segs,
        0 <= j < header_of(b).segs,
    ensures
        ({
            let p = merged(l, b).0;
            let t = seg_rec(b, header_of(b), i)->Ok_0.stable_id;
            let u = seg_rec(b, header_of(b), j)->Ok_0.stable_id;
            &&& p.segs[i] == p.segs[j] <==> t == u
            &&& l.seg_ids.contains_key(t) ==> p.segs[i] == l.seg_ids[t]
        }),
{
    let h = header_of(b);
    assert(h.nodes <= b.len() / 28 && h.segs <= b.len() / 32);
    lemma_table_lengths(l, b);
    lemma_xrestrs_tables(l, b, h.xrestrs);
    lemma_restrs_tables(l, b, h.restrs);
    reveal(sound);
    reveal(segs_as_given);
    reveal(keeps_ids);
    lemma_segs_consistent(l, b, h.segs);
    let q = after_segs(l, b, h.segs).0;
    assert(merged(l, b).0.segs == q.segs);
    law_stable_ids_are_distinct(
        q.load,
        seg_rec(b, h, i)->Ok_0.stable_id,
        seg_rec(b, h, j)->Ok_0.stable_id,
    );
}

proof fn lemma_renodes(m: LoadModel, b: Seq<u8>, nodes: Seq<NodeId>, n: int)
    requires
        sound(m),
        0 <= n <= nodes.len(),
        nodes_as_given(
            Progress { load: m, nodes, segs: Seq::empty() },
            b,
            nodes.len() as int,
        ),
    ensures
        after_nodes(m, b, n) == (
            Progress { load: m, nodes: nodes.take(n), segs: Seq::empty() },
            None::<TileReadError>,
        ),
    decreases n,
{
    if n > 0 {
        lemma_renodes(m, b, nodes, n - 1);
        reveal(sound);
        reveal(nodes_as_given);
        let r = node_rec(b, header_of(b), n - 1)->Ok_0;
        assert(taking_node(m, r) == m);
        assert(nodes.take(n - 1).push(nodes[n - 1]) =~= nodes.take(n));
    } else {
        assert(nodes.take(0) =~= Seq::empty());
    }
}

proof fn lemma_resegs(
    m: LoadModel,
    b: Seq<u8>,
    nodes: Seq<NodeId>,
    segs: Seq<SegmentId>,
    n: int,
)
    requires
        sound(m),
        0 <= n <= segs.len(),
        after_nodes(m, b, header_of(b).nodes) == (
            Progress { load: m, nodes, segs: Seq::empty() },
            None::<TileReadError>,
        ),
        segs_as_given(Progress { load: m, nodes, segs }, b, segs.len() as int),
    ensures
        after_segs(m, b, n) == (
            Progress { load: m, nodes, segs: segs.take(n) },
            None::<TileReadError>,
        ),
    decreases n,
{
    if n > 0 {
        lemma_resegs(m, b, nodes, segs, n - 1);
        reveal(sound);
        reveal(segs_as_given);
        let r = seg_rec(b, header_of(b), n - 1)->Ok_0;
        assert(taking_seg(m, r, nodes[r.start], nodes[r.end]) == m);
        assert(segs.take(n - 1).push(segs[n - 1]) =~= segs.take(n));
    } else {
        assert(segs.take(0) =~= Seq::empty());
    }
}

/// Whether the restriction records of `b` can be read does not depend on what was
/// loaded before.
proof fn lemma_restrs_readable_again(l: LoadModel, m: LoadModel, b: Seq<u8>, n: int)
    requires
        after_restrs(l, b, n).1 is None,
        after_segs(m, b, header_of(b).segs).1 is None,
    ensures
        after_restrs(m, b, n).1 is None,
    decreases n,
{
    if n > 0 {
        lemma_restrs_readable_again(l, m, b, n - 1);
    }
}

proof fn lemma_xrestrs_readable_again(l: LoadModel, m: LoadModel, b: Seq<u8>, n: int)
    requires
        after_xrestrs(l, b, n).1 is None,
        after_restrs(m, b, header_of(b).restrs).1 is None,
    ensures
        after_xrestrs(m, b, n).1 is None,
    decreases n,
{
    if n > 0 {
        lemma_xrestrs_readable_again(l, m, b, n - 1);
    }
}

proof fn lemma_loading_keeps_ids(l: LoadModel, b: Seq<u8>)
    requires
        sound(l),
        l.has_room(b.len()),
    ensures
        sound(loaded(l, b)),
        keeps_ids(l.node_ids, loaded(l, b).node_ids),
        keeps_ids(l.seg_ids, loaded(l, b).seg_ids),
{
    reveal(sound);
    law_loading_keeps_consistent(l, b);
    if header_verdict(b, None) {
        let h = header_of(b);
        assert(h.nodes <= b.len() / 28 && h.segs <= b.len() / 32);
        lemma_nodes_consistent(l, b, h.nodes);
        lemma_segs_consistent(l, b, h.segs);
        lemma_merged_same_roads(l, b);
    } else {
        reveal(keeps_ids);
    }
}

proof fn lemma_loading_all_keeps_ids(l: LoadModel, tiles: Seq<Seq<u8>>)
    requires
        sound(l),
        room_for_all(l, tiles),
    ensures
        sound(loaded_all(l, tiles)),
        keeps_ids(l.node_ids, loaded_all(l, tiles).node_ids),
        keeps_ids(l.seg_ids, loaded_all(l, tiles).seg_ids),
    decreases tiles.len(),
{
    if tiles.len() > 0 {
        let before = loaded_all(l, tiles.drop_last());
        let after = loaded_all(l, tiles);
        lemma_loading_all_keeps_ids(l, tiles.drop_last());
        lemma_loading_keeps_ids(before, tiles.last());
        lemma_keeps_trans(l.node_ids, before.node_ids, after.node_ids);
        lemma_keeps_trans(l.seg_ids, before.seg_ids, after.seg_ids);
    } else {
        reveal(keeps_ids);
    }
}

/// Loading a tile a second time, whatever tiles were loaded in between and whether or not
/// they could be read, finds every node and segment in place: the tables are the same, and
/// no node or segment is added or changed.
pub proof fn law_reloading_adds_no_roads(l: LoadModel, b: Seq<u8>, others: Seq<Seq<u8>>)
    requires
        l.consistent(),
        l.has_room(b.len()),
        readable(l, b),
        room_for_all(loaded(l, b), others),
    ensures
        ({
            let m = loaded_all(loaded(l, b), others);
            let again = loaded(m, b);
            &&& readable(m, b)
            &&& merged(m, b).0.nodes == merged(l, b).0.nodes
            &&& merged(m, b).0.segs == merged(l, b).0.segs
            &&& again.graph.nodes == m.graph.nodes
            &&& again.graph.segments == m.graph.segments
            &&& again.graph.order == m.graph.order
            &&& again.graph.touching == m.graph.touching
            &&& again.node_ids == m.node_ids
            &&& again.seg_ids == m.seg_ids
            &&& again.next_node == m.next_node
            &&& again.next_seg == m.next_seg
        }),
{
    let h = header_of(b);
    let first = loaded(l, b);
    let m = loaded_all(first, others);
    let p = merged(l, b).0;
    assert(h.nodes <= b.len() / 28 && h.segs <= b.len() / 32);
    assert(sound(l)) by {
        reveal(sound);
    }
    lemma_loading_keeps_ids(l, b);
    lemma_loading_all_keeps_ids(first, others);
    lemma_table_lengths(l, b);
    lemma_xrestrs_tables(l, b, h.xrestrs);
    lemma_restrs_tables(l, b, h.restrs);
    lemma_segs_len(l, b, h.segs);
    lemma_nodes_len(l, b, h.nodes);
    lemma_nodes_consistent(l, b, h.nodes);
    lemma_segs_consistent(l, b, h.segs);
    lemma_merged_same_roads(l, b);
    assert(nodes_as_given(Progress { load: m, nodes: p.nodes, segs: Seq::empty() }, b, h.nodes))
        by {
        reveal(nodes_as_given);
        reveal(keeps_ids);
    }
    assert(segs_as_given(Progress { load: m, nodes: p.nodes, segs: p.segs }, b, h.segs)) by {
        reveal(segs_as_given);
        reveal(keeps_ids);
    }
    lemma_renodes(m, b, p.nodes, h.nodes);
    assert(p.nodes.take(h.nodes) =~= p.nodes);
    lemma_resegs(m, b, p.nodes, p.segs, h.segs);
    assert(p.segs.take(h.segs) =~= p.segs);
    lemma_restrs_readable_again(l, m, b, h.restrs);
    lemma_xrestrs_readable_again(l, m, b, h.xrestrs);
    lemma_xrestrs_tables(m, b, h.xrestrs);
    lemma_restrs_tables(m, b, h.restrs);
    lemma_merged_same_roads(m, b);
}

/// The stable ids of the first `n` node records.
pub open spec fn node_stable_ids(b: Seq<u8>, n: int) -> Set<Seq<char>>
    decreases n,
{
    if n <= 0 {
        Set::empty()
    } else {
        node_stable_ids(b, n - 1).insert(node_rec(b, header_of(b), n - 1)->Ok_0.stable_id)
    }
}

/// The stable ids of the first `n` segment records.
pub open spec fn seg_stable_ids(b: Seq<u8>, n: int) -> Set<Seq<char>>
    decreases n,
{
    if n <= 0 {
        Set::empty()
    } else {
        seg_stable_ids(b, n - 1).insert(seg_rec(b, header_of(b), n - 1)->Ok_0.stable_id)
    }
}

/// `h` keeps the nodes and segments of `g` as they are.
pub open spec fn keeps_entries(g: GraphModel, h: GraphModel) -> bool {
    &&& forall|k: u32| #[trigger]
        g.nodes.contains_key(k) ==> h.nodes.contains_key(k) && h.nodes[k] == g.nodes[k]
    &&& forall|k: u32| #[trigger]
        g.segments.contains_key(k) ==> h.segments.contains_key(k) && h.segments[k] == g.segments[k]
}

proof fn lemma_one_more<T>(known: Set<T>, some: Set<T>, t: T)
    requires
        some.finite(),
    ensures
        some.insert(t).finite(),
        some.insert(t).difference(known).len() == some.difference(known).len() + if known.union(
            some,
        ).contains(t) {
            0int
        } else {
            1int
        },
{
    if known.contains(t) {
        assert(some.insert(t).difference(known) =~= some.difference(known));
    } else if some.contains(t) {
        assert(some.insert(t) =~= some);
    } else {
        assert(some.insert(t).difference(known) =~= some.difference(known).insert(t));
        assert(some.difference(known).finite());
    }
}

proof fn lemma_nodes_counted(l: LoadModel, b: Seq<u8>, n: int)
    requires
        0 <= n,
        after_nodes(l, b, n).1 is None,
    ensures
        ({
            let m = after_nodes(l, b, n).0.load;
            let ids = node_stable_ids(b, n);
            &&& ids.finite()
            &&& m.node_ids.dom() == l.node_ids.dom().union(ids)
            &&& m.next_node == l.next_node + ids.difference(l.node_ids.dom()).len()
            &&& keeps_entries(l.graph, m.graph)
            &&& m.seg_ids == l.seg_ids
            &&& m.next_seg == l.next_seg
        }),
    decreases n,
{
    if n > 0 {
        lemma_nodes_counted(l, b, n - 1);
        let m = after_nodes(l, b, n - 1).0.load;
        let ids = node_stable_ids(b, n - 1);
        let r = node_rec(b, header_of(b), n - 1)->Ok_0;
        lemma_one_more(l.node_ids.dom(), ids, r.stable_id);
        assert(taking_node(m, r).node_ids.dom() =~= l.node_ids.dom().union(
            ids.insert(r.stable_id),
        ));
    } else {
        assert(l.node_ids.dom().union(Set::empty()) =~= l.node_ids.dom());
        assert(Set::<Seq<char>>::empty().difference(l.node_ids.dom()) =~= Set::empty());
    }
}

proof fn lemma_segs_counted(l: LoadModel, b: Seq<u8>, n: int)
    requires
        0 <= n,
        0 <= header_of(b).nodes,
        after_segs(l, b, n).1 is None,
    ensures
        ({
            let m = after_segs(l, b, n).0.load;
            let p = after_nodes(l, b, header_of(b).nodes).0.load;
            let ids = seg_stable_ids(b, n);
            &&& ids.finite()
            &&& m.seg_ids.dom() == l.seg_ids.dom().union(ids)
            &&& m.next_seg == l.next_seg + ids.difference(l.seg_ids.dom()).len()
            &&& keeps_entries(l.graph, m.graph)
            &&& m.node_ids == p.node_ids
            &&& m.next_node == p.next_node
        }),
    decreases n,
{
    if n > 0 {
        lemma_segs_counted(l, b, n - 1);
        let q = after_segs(l, b, n - 1).0;
        let m = q.load;
        let ids = seg_stable_ids(b, n - 1);
        let r = seg_rec(b, header_of(b), n - 1)->Ok_0;
        lemma_one_more(l.seg_ids.dom(), ids, r.stable_id);
        assert(taking_seg(m, r, q.nodes[r.start], q.nodes[r.end]).seg_ids.dom()
            =~= l.seg_ids.dom().union(ids.insert(r.stable_id)));
    } else {
        lemma_nodes_counted(l, b, header_of(b).nodes);
        assert(l.seg_ids.dom().union(Set::empty()) =~= l.seg_ids.dom());
        assert(Set::<Seq<char>>::empty().difference(l.seg_ids.dom()) =~= Set::empty());
    }
}

/// What reading tile `b` makes of the network and the tables of `l`. Stable ids and ids
/// stay in one-to-one relation. There is one table entry per record, and two entries are
/// the same just where the records have one stable id. A stable id that is known keeps its
/// id and its entry in the network as first loaded, and the ids that are given out next
/// move on by the number of stable ids that are new.
pub open spec fn tables_kept(
    l: LoadModel,
    b: Seq<u8>,
    m: LoadModel,
    nodes: Seq<NodeId>,
    segs: Seq<SegmentId>,
) -> bool {
    let h = header_of(b);
    &&& m.consistent()
    &&& nodes.len() == h.nodes
    &&& segs.len() == h.segs
    &&& forall|i: int, j: int|
        0 <= i < h.nodes && 0 <= j < h.nodes ==> (#[trigger] nodes[i] == #[trigger] nodes[j]
            <==> node_rec(b, h, i)->Ok_0.stable_id == node_rec(b, h, j)->Ok_0.stable_id)
    &&& forall|i: int, j: int|
        0 <= i < h.segs && 0 <= j < h.segs ==> (#[trigger] segs[i] == #[trigger] segs[j]
            <==> seg_rec(b, h, i)->Ok_0.stable_id == seg_rec(b, h, j)->Ok_0.stable_id)
    &&& forall|t: Seq<char>| #[trigger]
        l.node_ids.contains_key(t) ==> m.node_ids.contains_key(t) && m.node_ids[t]
            == l.node_ids[t]
    &&& forall|t: Seq<char>| #[trigger]
        l.seg_ids.contains_key(t) ==> m.seg_ids.contains_key(t) && m.seg_ids[t] == l.seg_ids[t]
    &&& keeps_entries(l.graph, m.graph)
    &&& m.next_node == l.next_node + node_stable_ids(b, h.nodes).difference(
        l.node_ids.dom(),
    ).len()
    &&& m.next_seg == l.next_seg + seg_stable_ids(b, h.segs).difference(l.seg_ids.dom()).len()
}

/// Reading a tile keeps the tables, and so does loading it, which stitches cross-tile
/// restrictions besides.
pub proof fn law_reading_keeps_the_tables(l: LoadModel, b: Seq<u8>)
    requires
        l.consistent(),
        l.has_room(b.len()),
        readable(l, b),
    ensures
        tables_kept(l, b, merged(l, b).0.load, merged(l, b).0.nodes, merged(l, b).0.segs),
        tables_kept(l, b, loaded(l, b), merged(l, b).0.nodes, merged(l, b).0.segs),
{
    let h = header_of(b);
    let p = merged(l, b).0;
    law_loading_keeps_consistent(l, b);
    lemma_table_lengths(l, b);
    assert forall|i: int, j: int|
        0 <= i < h.nodes && 0 <= j < h.nodes implies (#[trigger] p.nodes[i] == #[trigger] p.nodes[j]
        <==> node_rec(b, h, i)->Ok_0.stable_id == node_rec(b, h, j)->Ok_0.stable_id) by {
        law_nodes_stitch_by_stable_id(l, b, i, j);
    }
    assert forall|i: int, j: int|
        0 <= i < h.segs && 0 <= j < h.segs implies (#[trigger] p.segs[i] == #[trigger] p.segs[j]
        <==> seg_rec(b, h, i)->Ok_0.stable_id == seg_rec(b, h, j)->Ok_0.stable_id) by {
        law_segments_stitch_by_stable_id(l, b, i, j);
    }
    assert(h.nodes <= b.len() / 28 && h.segs <= b.len() / 32);
    lemma_xrestrs_tables(l, b, h.xrestrs);
    lemma_restrs_tables(l, b, h.restrs);
    lemma_segs_counted(l, b, h.segs);
    lemma_nodes_counted(l, b, h.nodes);
    lemma_merged_same_roads(l, b);
    reveal(sound);
    reveal(keeps_ids);
    lemma_nodes_consistent(l, b, h.nodes);
    lemma_segs_consistent(l, b, h.segs);
}

proof fn lemma_carrying_same(g: GraphModel, g2: GraphModel, ids: Seq<SegmentId>, t: Seq<char>)
    requires
        g.segments == g2.segments,
    ensures
        carrying(g, ids, t) == carrying(g2, ids, t),
    decreases ids.len(),
{
    if ids.len() > 0 {
        lemma_carrying_same(g, g2, ids.drop_last(), t);
    }
}

proof fn lemma_resolvable_same(g: GraphModel, g2: GraphModel, p: PendingModel)
    requires
        g.segments == g2.segments,
        g.order == g2.order,
    ensures
        resolvable(g, p) == resolvable(g2, p),
{
    lemma_carrying_same(g, g2, g.order, p.from_id);
    lemma_carrying_same(g, g2, g.order, p.to_id);
}

proof fn lemma_unresolved(g: GraphModel, pending: Seq<PendingModel>)
    ensures
        forall|k: int| 0 <= k < unresolved(g, pending).len() ==> !resolvable(
            g,
            #[trigger] unresolved(g, pending)[k],
        ),
        forall|k: int|
            0 <= k < pending.len() && !resolvable(g, #[trigger] pending[k]) ==> unresolved(
                g,
                pending,
            ).contains(pending[k]),
    decreases pending.len(),
{
    if pending.len() > 0 {
        let rest = pending.drop_last();
        lemma_unresolved(g, rest);
        let u = unresolved(g, pending);
        assert forall|k: int| 0 <= k < u.len() implies !resolvable(g, #[trigger] u[k]) by {
            let r = unresolved(g, rest);
            if k < r.len() {
                assert(u[k] == r[k]);
            }
        }
        assert forall|k: int|
            0 <= k < pending.len() && !resolvable(g, #[trigger] pending[k]) implies u.contains(
            pending[k],
        ) by {
            if k < rest.len() {
                assert(rest[k] == pending[k]);
                let r = unresolved(g, rest);
                let j = choose|j: int| 0 <= j < r.len() && r[j] == rest[k];
                assert(u[j] == r[j]);
            } else {
                assert(u[u.len() - 1] == pending[k]);
            }
        }
    }
}

proof fn lemma_nothing_to_resolve(g: GraphModel, g2: GraphModel, pending: Seq<PendingModel>)
    requires
        g.segments == g2.segments,
        g.order == g2.order,
        forall|k: int| 0 <= k < pending.len() ==> !resolvable(g, #[trigger] pending[k]),
    ensures
        unresolved(g2, pending) == pending,
        resolved_turns(g2, pending) == Seq::<TurnRestriction>::empty(),
    decreases pending.len(),
{
    if pending.len() > 0 {
        let rest = pending.drop_last();
        assert forall|k: int| 0 <= k < rest.len() implies !resolvable(g, #[trigger] rest[k]) by {
            assert(rest[k] == pending[k]);
        }
        lemma_nothing_to_resolve(g, g2, rest);
        assert(!resolvable(g, pending[pending.len() - 1]));
        lemma_resolvable_same(g, g2, pending.last());
        assert(rest.push(pending.last()) =~= pending);
    }
}

/// Stitching a second time changes nothing.
pub proof fn law_stitching_is_idempotent(l: LoadModel)
    ensures
        stitched(stitched(l)) == stitched(l),
{
    let m = stitched(l);
    lemma_unresolved(l.graph, l.pending);
    lemma_nothing_to_resolve(l.graph, m.graph, m.pending);
    assert(stitched(m) =~= m);
}

/// A cross-tile restriction is never lost: after stitching it still waits, or both
/// of its stable ids are loaded; and nothing waits whose ids are both loaded.
pub proof fn law_pending_restrictions_wait_or_resolve(l: LoadModel, k: int)
    requires
        0 <= k < l.pending.len(),
    ensures
        stitched(l).pending.contains(l.pending[k]) || resolvable(l.graph, l.pending[k]),
        forall|j: int|
            0 <= j < stitched(l).pending.len() ==> !resolvable(
                l.graph,
                #[trigger] stitched(l).pending[j],
            ),
{
    lemma_unresolved(l.graph, l.pending);
}

} // verus!
