//! Which turns a network forbids once tiles were read and stitched.
use vstd::prelude::*;
use vstd::utf8::encode_utf8;

use crate::graph::{GraphModel, NodeId, SegmentId, TurnRestriction};
use crate::text::law_text_round_trip;
use crate::tile_content::grounded;
use crate::tile_format::{header_of, restr_rec, xrestr_rec, RestrRec, XRestrRec};
use crate::tile_merge::{
    after_nodes, after_restrs, after_segs, after_xrestrs, carrying, loaded, merged, readable,
    resolvable, resolved_turns, segments_with, stitched, turns_between, turns_into, unresolved,
    LoadModel, PendingModel, Progress,
};
use crate::tile_network_laws::{
    edges_are_new, edges_fit, law_written_edges_become_the_network, nodes_of, plan_for,
    restrictions_fit,
};
use crate::tile_round_trip::{
    has_room, law_cross_restriction_reads_back, law_payload_header_reads_back,
    law_restriction_reads_back,
};
use crate::tile_writer::{LmCrossTile, LmEdge, LmIntraTile, NodeTables};

verus! {

/// Whether segment `s` is loaded, under the stable id `t`.
pub open spec fn carries(g: GraphModel, s: SegmentId, t: Seq<char>) -> bool {
    g.segments.contains_key(s.0) && g.segments[s.0].stable_id == t
}

/// Whether segment `s` starts or ends at `n`.
pub open spec fn has_end(g: GraphModel, s: SegmentId, n: NodeId) -> bool {
    g.segments[s.0].start_node == n || g.segments[s.0].end_node == n
}

/// Whether both segments that a waiting restriction speaks of are loaded.
pub open spec fn both_loaded(g: GraphModel, p: PendingModel) -> bool {
    &&& exists|s: SegmentId| carries(g, s, p.from_id)
    &&& exists|s: SegmentId| carries(g, s, p.to_id)
}

/// Whether a turn is one that a waiting restriction forbids: from a segment of its first
/// stable id, over its node, into a segment of its second, both with an end there.
pub open spec fn forbidden_by(g: GraphModel, r: TurnRestriction, p: PendingModel) -> bool {
    &&& carries(g, r.from_seg, p.from_id)
    &&& carries(g, r.to_seg, p.to_id)
    &&& r.via_node == p.via_node
    &&& has_end(g, r.from_seg, r.via_node)
    &&& has_end(g, r.to_seg, r.via_node)
}

proof fn lemma_carrying(g: GraphModel, ids: Seq<SegmentId>, t: Seq<char>)
    ensures
        forall|s: SegmentId| #[trigger]
            carrying(g, ids, t).contains(s) <==> ids.contains(s) && carries(g, s, t),
    decreases ids.len(),
{
    if ids.len() > 0 {
        let p = ids.drop_last();
        lemma_carrying(g, p, t);
        let rest = carrying(g, p, t);
        let all = carrying(g, ids, t);
        assert forall|s: SegmentId| #[trigger]
            all.contains(s) <==> ids.contains(s) && carries(g, s, t) by {
            assert(ids =~= p.push(ids.last()));
            lemma_push_has(p, ids.last(), s);
            lemma_push_has(rest, ids.last(), s);
            assert(rest.contains(s) <==> p.contains(s) && carries(g, s, t));
        }
    } else {
        assert forall|s: SegmentId| #[trigger]
            carrying(g, ids, t).contains(s) <==> ids.contains(s) && carries(g, s, t) by {}
    }
}

proof fn lemma_push_has<A>(s: Seq<A>, y: A, x: A)
    ensures
        s.push(y).contains(x) <==> x == y || s.contains(x),
{
    assert(s.push(y)[s.len() as int] == y);
    if s.contains(x) {
        let k = choose|k: int| 0 <= k < s.len() && s[k] == x;
        assert(s.push(y)[k] == x);
    }
    if s.push(y).contains(x) && x != y {
        let k = choose|k: int| 0 <= k < s.len() + 1 && s.push(y)[k] == x;
        assert(s[k] == x);
    }
}

proof fn lemma_concat_has<A>(a: Seq<A>, b: Seq<A>, x: A)
    ensures
        (a + b).contains(x) <==> a.contains(x) || b.contains(x),
{
    if a.contains(x) {
        let k = choose|k: int| 0 <= k < a.len() && a[k] == x;
        assert((a + b)[k] == x);
    }
    if b.contains(x) {
        let k = choose|k: int| 0 <= k < b.len() && b[k] == x;
        assert((a + b)[a.len() + k] == x);
    }
    if (a + b).contains(x) {
        let k = choose|k: int| 0 <= k < (a + b).len() && (a + b)[k] == x;
        if k < a.len() {
            assert(a[k] == x);
        } else {
            assert(b[k - a.len()] == x);
        }
    }
}

proof fn lemma_segments_with(g: GraphModel, t: Seq<char>)
    requires
        g.wf(),
    ensures
        forall|s: SegmentId| #[trigger]
            segments_with(g, t).contains(s) <==> carries(g, s, t),
        segments_with(g, t).len() > 0 <==> exists|s: SegmentId| carries(g, s, t),
{
    lemma_carrying(g, g.order, t);
    let all = segments_with(g, t);
    assert forall|s: SegmentId| #[trigger] all.contains(s) <==> carries(g, s, t) by {
        if carries(g, s, t) {
            assert(g.order.contains(s));
        }
    }
    if all.len() > 0 {
        assert(all.contains(all[0]));
        assert(carries(g, all[0], t));
    }
    if exists|s: SegmentId| carries(g, s, t) {
        let s = choose|s: SegmentId| carries(g, s, t);
        assert(all.contains(s));
    }
}

proof fn lemma_turns_into(g: GraphModel, from: SegmentId, over: NodeId, tos: Seq<SegmentId>)
    ensures
        forall|r: TurnRestriction| #[trigger]
            turns_into(g, from, over, tos).contains(r) <==> r.from_seg == from && r.via_node == over
                && tos.contains(r.to_seg) && g.touches(r.to_seg, over),
    decreases tos.len(),
{
    if tos.len() > 0 {
        let p = tos.drop_last();
        let last = tos.last();
        lemma_turns_into(g, from, over, p);
        let rest = turns_into(g, from, over, p);
        let t = TurnRestriction { from_seg: from, via_node: over, to_seg: last };
        assert forall|r: TurnRestriction| #[trigger]
            turns_into(g, from, over, tos).contains(r) <==> r.from_seg == from && r.via_node == over
                && tos.contains(r.to_seg) && g.touches(r.to_seg, over) by {
            assert(tos =~= p.push(last));
            lemma_push_has(p, last, r.to_seg);
            lemma_push_has(rest, t, r);
            assert(rest.contains(r) <==> r.from_seg == from && r.via_node == over && p.contains(
                r.to_seg,
            ) && g.touches(r.to_seg, over));
        }
    } else {
        assert forall|r: TurnRestriction| #[trigger]
            turns_into(g, from, over, tos).contains(r) <==> r.from_seg == from && r.via_node == over
                && tos.contains(r.to_seg) && g.touches(r.to_seg, over) by {}
    }
}

proof fn lemma_turns_between(
    g: GraphModel,
    froms: Seq<SegmentId>,
    over: NodeId,
    tos: Seq<SegmentId>,
)
    ensures
        forall|r: TurnRestriction| #[trigger]
            turns_between(g, froms, over, tos).contains(r) <==> froms.contains(r.from_seg)
                && g.touches(r.from_seg, over) && r.via_node == over && tos.contains(r.to_seg)
                && g.touches(r.to_seg, over),
    decreases froms.len(),
{
    if froms.len() > 0 {
        let p = froms.drop_last();
        let last = froms.last();
        lemma_turns_between(g, p, over, tos);
        lemma_turns_into(g, last, over, tos);
        let rest = turns_between(g, p, over, tos);
        let more = turns_into(g, last, over, tos);
        assert forall|r: TurnRestriction| #[trigger]
            turns_between(g, froms, over, tos).contains(r) <==> froms.contains(r.from_seg)
                && g.touches(r.from_seg, over) && r.via_node == over && tos.contains(r.to_seg)
                && g.touches(r.to_seg, over) by {
            assert(froms =~= p.push(last));
            lemma_push_has(p, last, r.from_seg);
            lemma_concat_has(rest, more, r);
            assert(rest.contains(r) <==> p.contains(r.from_seg) && g.touches(r.from_seg, over)
                && r.via_node == over && tos.contains(r.to_seg) && g.touches(r.to_seg, over));
            assert(more.contains(r) <==> r.from_seg == last && r.via_node == over && tos.contains(
                r.to_seg,
            ) && g.touches(r.to_seg, over));
        }
    } else {
        assert forall|r: TurnRestriction| #[trigger]
            turns_between(g, froms, over, tos).contains(r) <==> froms.contains(r.from_seg)
                && g.touches(r.from_seg, over) && r.via_node == over && tos.contains(r.to_seg)
                && g.touches(r.to_seg, over) by {}
    }
}

/// Whether one of `pending` forbids a turn.
pub open spec fn forbidden_by_one(
    g: GraphModel,
    r: TurnRestriction,
    pending: Seq<PendingModel>,
) -> bool {
    exists|i: int| 0 <= i < pending.len() && forbidden_by(g, r, #[trigger] pending[i])
}

proof fn lemma_resolved_turns(g: GraphModel, pending: Seq<PendingModel>)
    requires
        g.wf(),
    ensures
        forall|r: TurnRestriction| #[trigger]
            resolved_turns(g, pending).contains(r) <==> forbidden_by_one(g, r, pending),
        unresolved(g, pending) == pending.filter(|p: PendingModel| !both_loaded(g, p)),
    decreases pending.len(),
{
    reveal(Seq::filter);
    if pending.len() > 0 {
        let rest = pending.drop_last();
        let p = pending.last();
        lemma_resolved_turns(g, rest);
        lemma_segments_with(g, p.from_id);
        lemma_segments_with(g, p.to_id);
        assert(resolvable(g, p) == both_loaded(g, p));
        let before = resolved_turns(g, rest);
        let froms = segments_with(g, p.from_id);
        let tos = segments_with(g, p.to_id);
        let more = turns_between(g, froms, p.via_node, tos);
        lemma_turns_between(g, froms, p.via_node, tos);
        assert forall|r: TurnRestriction| #[trigger]
            resolved_turns(g, pending).contains(r) <==> forbidden_by_one(g, r, pending) by {
            lemma_concat_has(before, more, r);
            assert(more.contains(r) <==> forbidden_by(g, r, p)) by {
                assert(froms.contains(r.from_seg) <==> carries(g, r.from_seg, p.from_id));
                assert(tos.contains(r.to_seg) <==> carries(g, r.to_seg, p.to_id));
            }
            assert(before.contains(r) <==> forbidden_by_one(g, r, rest));
            if forbidden_by_one(g, r, rest) {
                let i = choose|i: int|
                    0 <= i < rest.len() && forbidden_by(g, r, #[trigger] rest[i]);
                assert(pending[i] == rest[i]);
            }
            if forbidden_by(g, r, p) {
                assert(pending[pending.len() - 1] == p);
                assert(both_loaded(g, p));
            }
            if forbidden_by_one(g, r, pending) {
                let i = choose|i: int|
                    0 <= i < pending.len() && forbidden_by(g, r, #[trigger] pending[i]);
                if i < rest.len() {
                    assert(rest[i] == pending[i]);
                }
            }
        }
    } else {
        assert(unresolved(g, pending) =~= pending.filter(|p: PendingModel| !both_loaded(g, p)));
    }
}

/// Stitching forbids, besides the turns that are forbidden already, those that waiting
/// restrictions speak of, and no others: from a segment that carries the first stable id,
/// over the restriction's node, into one that carries the second. What goes on waiting, in
/// its order, is what speaks of a segment that is not loaded. Nothing else changes.
pub proof fn law_stitching_forbids_the_waiting_turns(l: LoadModel)
    requires
        l.graph.wf(),
    ensures
        ({
            let s = stitched(l);
            let n = l.graph.restrictions.len() as int;
            let added = s.graph.restrictions.skip(n);
            &&& s.graph.restrictions.len() >= n
            &&& s.graph.restrictions.take(n) == l.graph.restrictions
            &&& forall|r: TurnRestriction| #[trigger]
                added.contains(r) <==> forbidden_by_one(l.graph, r, l.pending)
            &&& s.pending == l.pending.filter(|p: PendingModel| !both_loaded(l.graph, p))
            &&& s.graph.nodes == l.graph.nodes
            &&& s.graph.segments == l.graph.segments
            &&& s.graph.order == l.graph.order
            &&& s.graph.touching == l.graph.touching
            &&& s.graph.loaded == l.graph.loaded
            &&& s.node_ids == l.node_ids
            &&& s.seg_ids == l.seg_ids
            &&& s.next_node == l.next_node
            &&& s.next_seg == l.next_seg
        }),
{
    lemma_resolved_turns(l.graph, l.pending);
    let s = stitched(l);
    let n = l.graph.restrictions.len() as int;
    assert(s.graph.restrictions.skip(n) =~= resolved_turns(l.graph, l.pending));
    assert(s.graph.restrictions.take(n) =~= l.graph.restrictions);
}

/// The turn that a restriction record forbids, given the tile's own tables.
pub open spec fn turn_of(p: Progress, r: RestrRec) -> TurnRestriction {
    TurnRestriction { from_seg: p.segs[r.from], via_node: p.nodes[r.via], to_seg: p.segs[r.to] }
}

/// The restriction that a cross restriction record leaves waiting.
pub open spec fn waiting_of(p: Progress, r: XRestrRec) -> PendingModel {
    PendingModel { from_id: r.from_id, via_node: p.nodes[r.via], to_id: r.to_id }
}

proof fn lemma_nodes_forbid_nothing(l: LoadModel, b: Seq<u8>, n: int)
    ensures
        after_nodes(l, b, n).0.load.graph.restrictions == l.graph.restrictions,
        after_nodes(l, b, n).0.load.pending == l.pending,
    decreases n,
{
    if n > 0 {
        lemma_nodes_forbid_nothing(l, b, n - 1);
    }
}

proof fn lemma_segs_forbid_nothing(l: LoadModel, b: Seq<u8>, n: int)
    ensures
        after_segs(l, b, n).0.load.graph.restrictions == l.graph.restrictions,
        after_segs(l, b, n).0.load.pending == l.pending,
    decreases n,
{
    lemma_nodes_forbid_nothing(l, b, header_of(b).nodes);
    if n > 0 {
        lemma_segs_forbid_nothing(l, b, n - 1);
    }
}

proof fn lemma_restrs_forbid(l: LoadModel, b: Seq<u8>, n: int)
    requires
        0 <= n,
        after_restrs(l, b, n).1 is None,
    ensures
        ({
            let base = after_segs(l, b, header_of(b).segs).0;
            let p = after_restrs(l, b, n).0;
            &&& p.nodes == base.nodes
            &&& p.segs == base.segs
            &&& p.load.pending == l.pending
            &&& p.load.graph.restrictions == l.graph.restrictions + Seq::new(
                n as nat,
                |i: int| turn_of(base, restr_rec(b, header_of(b), i)->Ok_0),
            )
        }),
    decreases n,
{
    let base = after_segs(l, b, header_of(b).segs).0;
    lemma_segs_forbid_nothing(l, b, header_of(b).segs);
    let p = after_restrs(l, b, n).0;
    let turns = Seq::new(
        n as nat,
        |i: int| turn_of(base, restr_rec(b, header_of(b), i)->Ok_0),
    );
    if n > 0 {
        lemma_restrs_forbid(l, b, n - 1);
        assert(p.load.graph.restrictions =~= l.graph.restrictions + turns);
    } else {
        assert(p.load.graph.restrictions =~= l.graph.restrictions + turns);
    }
}

proof fn lemma_xrestrs_wait(l: LoadModel, b: Seq<u8>, n: int)
    requires
        0 <= n,
        after_xrestrs(l, b, n).1 is None,
        after_restrs(l, b, header_of(b).restrs).1 is None,
        0 <= header_of(b).restrs,
    ensures
        ({
            let base = after_restrs(l, b, header_of(b).restrs).0;
            let p = after_xrestrs(l, b, n).0;
            &&& p.nodes == base.nodes
            &&& p.segs == base.segs
            &&& p.load.graph.restrictions == base.load.graph.restrictions
            &&& p.load.pending == l.pending + Seq::new(
                n as nat,
                |i: int| waiting_of(base, xrestr_rec(b, header_of(b), i)->Ok_0),
            )
        }),
    decreases n,
{
    let base = after_restrs(l, b, header_of(b).restrs).0;
    lemma_restrs_forbid(l, b, header_of(b).restrs);
    let p = after_xrestrs(l, b, n).0;
    let more = Seq::new(
        n as nat,
        |i: int| waiting_of(base, xrestr_rec(b, header_of(b), i)->Ok_0),
    );
    if n > 0 {
        lemma_xrestrs_wait(l, b, n - 1);
        assert(p.load.pending =~= l.pending + more);
    } else {
        assert(p.load.pending =~= l.pending + more);
    }
}

proof fn lemma_restrs_were_read(l: LoadModel, b: Seq<u8>, n: int)
    ensures
        after_xrestrs(l, b, n).1 is None ==> after_restrs(l, b, header_of(b).restrs).1 is None,
    decreases n,
{
    if n > 0 {
        lemma_restrs_were_read(l, b, n - 1);
    }
}

/// A tile that is read forbids the turn of each of its restriction records, in their order,
/// and leaves each of its cross restriction records waiting, in their order: the segments
/// and nodes are those of the tile's own tables.
pub proof fn law_tiles_forbid_their_turns(l: LoadModel, b: Seq<u8>)
    requires
        readable(l, b),
    ensures
        ({
            let p = merged(l, b).0;
            let h = header_of(b);
            let n = l.graph.restrictions.len() as int;
            let m = l.pending.len() as int;
            &&& p.load.graph.restrictions.len() == n + h.restrs
            &&& p.load.graph.restrictions.take(n) == l.graph.restrictions
            &&& forall|i: int|
                0 <= i < h.restrs ==> #[trigger] p.load.graph.restrictions[n + i] == turn_of(
                    p,
                    restr_rec(b, h, i)->Ok_0,
                )
            &&& p.load.pending.len() == m + h.xrestrs
            &&& p.load.pending.take(m) == l.pending
            &&& forall|i: int|
                0 <= i < h.xrestrs ==> #[trigger] p.load.pending[m + i] == waiting_of(
                    p,
                    xrestr_rec(b, h, i)->Ok_0,
                )
        }),
{
    let h = header_of(b);
    lemma_restrs_were_read(l, b, h.xrestrs);
    lemma_xrestrs_wait(l, b, h.xrestrs);
    lemma_restrs_forbid(l, b, h.restrs);
    let p = merged(l, b).0;
    let n = l.graph.restrictions.len() as int;
    let m = l.pending.len() as int;
    assert(p.load.graph.restrictions.take(n) =~= l.graph.restrictions);
    assert(p.load.pending.take(m) =~= l.pending);
}

/// A tile that was written forbids, once it is read, the turns that it was written with:
/// those between two of its edges over one of its nodes at once, and the others wait under
/// the stable ids that they were written with. (`law_written_edges_become_the_network` says
/// which segments and nodes the tables name.)
pub proof fn law_written_restrictions_are_read_back(
    l: LoadModel,
    edges: Seq<LmEdge>,
    t: NodeTables,
    x: u32,
    y: u32,
    intra: Seq<LmIntraTile>,
    cross: Seq<LmCrossTile>,
)
    requires
        l.consistent(),
        grounded(l),
        edges_fit(edges, t),
        restrictions_fit(edges, intra, cross),
        edges_are_new(l, edges, t),
        has_room(plan_for(edges, t, x, y, intra, cross)),
        l.has_room(plan_for(edges, t, x, y, intra, cross).bytes().len()),
    ensures
        ({
            let b = plan_for(edges, t, x, y, intra, cross).bytes();
            let p = merged(l, b).0;
            let n = l.graph.restrictions.len() as int;
            let m = l.pending.len() as int;
            &&& readable(l, b)
            &&& p.load.graph.restrictions.len() == n + intra.len()
            &&& p.load.graph.restrictions.take(n) == l.graph.restrictions
            &&& forall|i: int|
                0 <= i < intra.len() ==> {
                    let r = #[trigger] p.load.graph.restrictions[n + i];
                    &&& r.from_seg == p.segs[intra[i].from_seg as int]
                    &&& r.via_node == p.nodes[intra[i].via_node as int]
                    &&& r.to_seg == p.segs[intra[i].to_seg as int]
                }
            &&& p.load.pending.len() == m + cross.len()
            &&& p.load.pending.take(m) == l.pending
            &&& forall|i: int|
                0 <= i < cross.len() ==> {
                    let r = #[trigger] p.load.pending[m + i];
                    &&& r.from_id == cross[i].from_id@
                    &&& r.via_node == p.nodes[cross[i].via_node_local as int]
                    &&& r.to_id == cross[i].to_id@
                }
        }),
{
    let plan = plan_for(edges, t, x, y, intra, cross);
    let b = plan.bytes();
    law_written_edges_become_the_network(l, edges, t, x, y, intra, cross);
    law_payload_header_reads_back(plan);
    law_tiles_forbid_their_turns(l, b);
    let p = merged(l, b).0;
    let n = l.graph.restrictions.len() as int;
    let m = l.pending.len() as int;
    assert forall|i: int| 0 <= i < intra.len() implies {
        let r = #[trigger] p.load.graph.restrictions[n + i];
        &&& r.from_seg == p.segs[intra[i].from_seg as int]
        &&& r.via_node == p.nodes[intra[i].via_node as int]
        &&& r.to_seg == p.segs[intra[i].to_seg as int]
    } by {
        assert(intra[i].from_seg < edges.len());
        law_restriction_reads_back(plan, i);
    }
    assert forall|i: int| 0 <= i < cross.len() implies {
        let r = #[trigger] p.load.pending[m + i];
        &&& r.from_id == cross[i].from_id@
        &&& r.via_node == p.nodes[cross[i].via_node_local as int]
        &&& r.to_id == cross[i].to_id@
    } by {
        assert(cross[i].via_node_local < nodes_of(edges).len());
        law_text_round_trip(cross[i].from_id@);
        law_text_round_trip(cross[i].to_id@);
        law_cross_restriction_reads_back(plan, i, cross[i].from_id@, cross[i].to_id@);
    }
}

} // verus!
