//! What holds of a network whichever way it came about: how walks over it compose, and how
//! its lists of touching segments change.
use vstd::prelude::*;

use crate::encode_error::EncodeError;
use crate::graph::{
    departing, detached, touching_at, without, Direction, GraphModel, NodeId, NodeModel, SegmentId,
    SegmentModel,
};
use crate::line::coord_of;

verus! {

/// Whether segment `s` is there and joins `a` and `b`, whichever way round.
pub open spec fn joins_nodes(g: GraphModel, s: SegmentId, a: NodeId, b: NodeId) -> bool {
    &&& g.segments.contains_key(s.0)
    &&& {
        ||| g.segments[s.0].start_node == a && g.segments[s.0].end_node == b
        ||| g.segments[s.0].start_node == b && g.segments[s.0].end_node == a
    }
}

/// Whether `nodes` are the nodes that a path comes by: one more than it has segments, and
/// each segment joins the nodes before and after it.
pub open spec fn comes_by(g: GraphModel, path: Seq<SegmentId>, nodes: Seq<NodeId>) -> bool {
    &&& nodes.len() == path.len() + 1
    &&& forall|i: int|
        0 <= i < path.len() ==> joins_nodes(g, #[trigger] path[i], nodes[i], nodes[i + 1])
}

/// A walk over a path ends where the path leads, and only where it does: there are nodes
/// from the start to there that the path comes by one after the other.
pub proof fn law_walks_come_by_nodes(g: GraphModel, n: NodeId, path: Seq<SegmentId>, m: NodeId)
    ensures
        g.walk_end(n, path) == Some(m) <==> exists|nodes: Seq<NodeId>|
            #![trigger comes_by(g, path, nodes)]
            comes_by(g, path, nodes) && nodes.first() == n && nodes.last() == m,
    decreases path.len(),
{
    if path.len() == 0 {
        if n == m {
            let nodes = seq![n];
            assert(comes_by(g, path, nodes) && nodes.first() == n && nodes.last() == m);
        }
    } else {
        let p = path.drop_last();
        let s = path.last();
        if g.walk_end(n, path) == Some(m) {
            let k = g.walk_end(n, p)->Some_0;
            law_walks_come_by_nodes(g, n, p, k);
            let before = choose|nodes: Seq<NodeId>|
                #![trigger comes_by(g, p, nodes)]
                comes_by(g, p, nodes) && nodes.first() == n && nodes.last() == k;
            let nodes = before.push(m);
            assert forall|i: int| 0 <= i < path.len() implies joins_nodes(
                g,
                #[trigger] path[i],
                nodes[i],
                nodes[i + 1],
            ) by {
                if i < p.len() {
                    assert(joins_nodes(g, p[i], before[i], before[i + 1]));
                } else {
                    assert(path[i] == s && nodes[i] == k);
                }
            }
            assert(comes_by(g, path, nodes) && nodes.first() == n && nodes.last() == m);
        }
        if exists|nodes: Seq<NodeId>|
            #![trigger comes_by(g, path, nodes)]
            comes_by(g, path, nodes) && nodes.first() == n && nodes.last() == m {
            let nodes = choose|nodes: Seq<NodeId>|
                #![trigger comes_by(g, path, nodes)]
                comes_by(g, path, nodes) && nodes.first() == n && nodes.last() == m;
            let before = nodes.drop_last();
            assert forall|i: int| 0 <= i < p.len() implies joins_nodes(
                g,
                #[trigger] p[i],
                before[i],
                before[i + 1],
            ) by {
                assert(joins_nodes(g, path[i], nodes[i], nodes[i + 1]));
            }
            assert(comes_by(g, p, before));
            law_walks_come_by_nodes(g, n, p, before.last());
            assert(joins_nodes(g, path[path.len() - 1], nodes[path.len() - 1], m));
        }
    }
}

/// A walk over two paths goes on from where the first ends.
pub proof fn law_walks_compose(g: GraphModel, n: NodeId, a: Seq<SegmentId>, b: Seq<SegmentId>)
    ensures
        g.walk_end(n, a + b) == (match g.walk_end(n, a) {
            Some(m) => g.walk_end(m, b),
            None => None,
        }),
    decreases b.len(),
{
    if b.len() == 0 {
        assert(a + b =~= a);
    } else {
        assert((a + b).drop_last() =~= a + b.drop_last());
        law_walks_compose(g, n, a, b.drop_last());
    }
}

/// A walk can be walked back.
pub proof fn law_walks_reverse(g: GraphModel, n: NodeId, path: Seq<SegmentId>, m: NodeId)
    requires
        g.walk_end(n, path) == Some(m),
    ensures
        g.walk_end(m, path.reverse()) == Some(n),
    decreases path.len(),
{
    if path.len() > 0 {
        let p = path.drop_last();
        let s = path.last();
        let k = g.walk_end(n, p)->Some_0;
        law_walks_reverse(g, n, p, k);
        let first = seq![s];
        assert(first.drop_last() =~= Seq::<SegmentId>::empty());
        reveal_with_fuel(GraphModel::walk_end, 2);
        assert(g.walk_end(m, first) == Some(k));
        assert(path.reverse() =~= first + p.reverse());
        law_walks_compose(g, m, first, p.reverse());
    } else {
        assert(path.reverse() =~= path);
    }
}

/// The start of a walk is a walk.
pub proof fn lemma_walk_start(g: GraphModel, n: NodeId, path: Seq<SegmentId>, k: int)
    requires
        0 <= k <= path.len(),
        g.walk_end(n, path) is Some,
    ensures
        g.walk_end(n, path.take(k)) is Some,
{
    law_walks_compose(g, n, path.take(k), path.skip(k));
    assert(path.take(k) + path.skip(k) =~= path);
}

/// Whether segment `s` may be driven away from `n`: along its line from its start, unless it
/// is driven only against it, or against its line from its end, unless it is driven only
/// along it.
pub open spec fn drives_away(g: GraphModel, s: SegmentId, n: NodeId) -> bool {
    &&& g.segments.contains_key(s.0)
    &&& {
        ||| g.segments[s.0].start_node == n && g.segments[s.0].direction != Direction::Backward
        ||| g.segments[s.0].end_node == n && g.segments[s.0].direction != Direction::Forward
    }
}

proof fn lemma_departing_filters(g: GraphModel, ids: Seq<SegmentId>, n: NodeId)
    ensures
        departing(g, ids, n) == ids.filter(|s: SegmentId| drives_away(g, s, n)),
    decreases ids.len(),
{
    reveal(Seq::filter);
    if ids.len() > 0 {
        lemma_departing_filters(g, ids.drop_last(), n);
        assert(g.departs(ids.last(), n) == drives_away(g, ids.last(), n));
    } else {
        assert(departing(g, ids, n) =~= ids.filter(|s: SegmentId| drives_away(g, s, n)));
    }
}

/// The segments that lead away from a node are those that touch it and may be driven away
/// from it, oldest first.
pub proof fn law_outgoing_segments_drive_away(g: GraphModel, n: NodeId)
    ensures
        g.outgoing(n) == touching_at(g.touching, n).filter(|s: SegmentId| drives_away(g, s, n)),
{
    lemma_departing_filters(g, touching_at(g.touching, n), n);
}

proof fn lemma_without_filters(s: Seq<SegmentId>, id: SegmentId)
    ensures
        without(s, id) == s.filter(|x: SegmentId| x != id),
    decreases s.len(),
{
    reveal(Seq::filter);
    if s.len() > 0 {
        lemma_without_filters(s.drop_last(), id);
    } else {
        assert(without(s, id) =~= s.filter(|x: SegmentId| x != id));
    }
}

proof fn lemma_filter_again(s: Seq<SegmentId>, id: SegmentId)
    ensures
        s.filter(|x: SegmentId| x != id).filter(|x: SegmentId| x != id) == s.filter(
            |x: SegmentId| x != id,
        ),
        s.push(id).filter(|x: SegmentId| x != id) == s.filter(|x: SegmentId| x != id),
        !s.contains(id) ==> s.filter(|x: SegmentId| x != id) == s,
    decreases s.len(),
{
    reveal(Seq::filter);
    let keep = |x: SegmentId| x != id;
    assert(s.push(id).drop_last() =~= s);
    if s.len() > 0 {
        let p = s.drop_last();
        lemma_filter_again(p, id);
        let f = p.filter(keep);
        if s.last() != id {
            assert(f.push(s.last()).drop_last() =~= f);
        }
        if !s.contains(id) {
            assert(!p.contains(id)) by {
                if p.contains(id) {
                    let k = choose|k: int| 0 <= k < p.len() && p[k] == id;
                    assert(s[k] == id);
                }
            }
            assert(s[s.len() - 1] != id);
            assert(f.push(s.last()) =~= s);
        }
    } else {
        assert(s.filter(keep) =~= s);
    }
}

/// Adding a segment adds just that segment: under its id the network then holds it, and
/// under every other id what it held before, and all else is as it was. At each node the
/// other segments stay in their order, and the new one comes last where it touches the node.
pub proof fn law_adding_a_segment(g: GraphModel, s: SegmentModel, n: NodeId)
    requires
        g.wf(),
    ensures
        ({
            let h = g.with_segment(s);
            let others = touching_at(g.touching, n).filter(|x: SegmentId| x != s.id);
            &&& h.segments.contains_key(s.id.0) && h.segments[s.id.0] == s
            &&& forall|k: u32|
                k != s.id.0 ==> (#[trigger] h.segments.contains_key(k) <==> g.segments.contains_key(
                    k,
                )) && (g.segments.contains_key(k) ==> h.segments[k] == g.segments[k])
            &&& touching_at(h.touching, n) == if s.start_node == n || s.end_node == n {
                others.push(s.id)
            } else {
                others
            }
            &&& h.order == if g.order.contains(s.id) {
                g.order
            } else {
                g.order.push(s.id)
            }
            &&& h.nodes == g.nodes
            &&& h.restrictions == g.restrictions
            &&& h.loaded == g.loaded
        }),
{
    let before = touching_at(g.touching, n);
    let c = g.touching_without(s.id);
    lemma_without_filters(before, s.id);
    lemma_filter_again(before, s.id);
    let others = before.filter(|x: SegmentId| x != s.id);
    lemma_without_filters(others, s.id);
    assert(before.contains(s.id) <==> g.touches(s.id, n));
    if g.segments.contains_key(s.id.0) {
        let gone = g.segments[s.id.0];
        let d = detached(g.touching, gone.start_node, s.id);
        if gone.start_node == n {
            assert(touching_at(d, n) == others);
        } else {
            assert(touching_at(d, n) == before);
        }
        if gone.end_node == n {
            assert(touching_at(c, n) == others);
        } else if gone.start_node == n {
            assert(touching_at(c, n) == others);
        }
    }
    assert(touching_at(c, n) == others);
}

/// Adding a node adds just that node: under its id the network then holds it, under every
/// other id what it held before, and all else is as it was.
pub proof fn law_adding_a_node(g: GraphModel, m: NodeModel, k: u32)
    ensures
        ({
            let h = g.with_node(m);
            &&& h.nodes.contains_key(m.id.0) && h.nodes[m.id.0] == m
            &&& k != m.id.0 ==> (h.nodes.contains_key(k) <==> g.nodes.contains_key(k)) && (
            g.nodes.contains_key(k) ==> h.nodes[k] == g.nodes[k])
            &&& h.segments == g.segments
            &&& h.order == g.order
            &&& h.touching == g.touching
            &&& h.restrictions == g.restrictions
            &&& h.loaded == g.loaded
        }),
{
}

/// A node that was added is found where it was put, east first and north second. Where a
/// node is not known before, it is known by being added alone.
pub proof fn law_added_nodes_are_found(g: GraphModel, m: NodeModel, n: NodeId)
    ensures
        ({
            let h = g.with_node(m);
            &&& coord_of(h, m.id) == Ok::<(i32, i32), EncodeError>((m.lon, m.lat))
            &&& n != m.id ==> coord_of(h, n) == coord_of(g, n)
            &&& coord_of(g, n) is Err ==> coord_of(g, n) == Err::<(i32, i32), EncodeError>(
                EncodeError::UnknownNode(n),
            )
            &&& coord_of(g, n) is Ok <==> g.nodes.contains_key(n.0)
        }),
{
}

/// A node is one where a location reference may have a point just where its neighbours are
/// not exactly two nodes.
pub proof fn law_valid_nodes_are_no_mere_passages(g: GraphModel, n: NodeId)
    requires
        g.wf(),
    ensures
        !g.valid_node(n) <==> exists|a: NodeId, b: NodeId|
            #![trigger only_neighbors(g, n, a, b)]
            a != b && only_neighbors(g, n, a, b),
{
    let around = g.neighbor_nodes(n);
    if exists|a: NodeId, b: NodeId|
        #![trigger only_neighbors(g, n, a, b)]
        a != b && only_neighbors(g, n, a, b) {
        let (a, b) = choose|a: NodeId, b: NodeId|
            #![trigger only_neighbors(g, n, a, b)]
            a != b && only_neighbors(g, n, a, b);
        lemma_neighbors_joined(g, n);
        assert(around =~= Set::empty().insert(a).insert(b));
    }
    if !g.valid_node(n) {
        lemma_neighbors_joined(g, n);
        let a = around.choose();
        let rest = around.remove(a);
        let b = rest.choose();
        lemma_neighbors_finite(g, n);
        assert(rest.len() == 1);
        assert(rest.remove(b).len() == 0);
        assert(rest.remove(b) =~= Set::empty());
        assert(around =~= Set::empty().insert(a).insert(b));
        assert(around.contains(a) && around.contains(b));
        assert forall|s: SegmentId, m: NodeId| #[trigger] joins_nodes(g, s, n, m) implies m == a
            || m == b by {
            assert(around.contains(m));
        }
        assert(only_neighbors(g, n, a, b));
    }
}

proof fn lemma_neighbors_finite(g: GraphModel, n: NodeId)
    requires
        g.wf(),
    ensures
        g.neighbor_nodes(n).finite(),
{
    let ids = touching_at(g.touching, n);
    let far = Seq::new(ids.len(), |i: int| g.other_end(ids[i], n)->Some_0);
    let around = g.neighbor_nodes(n);
    assert forall|m: NodeId| #[trigger] around.contains(m) implies far.to_set().contains(m) by {
        let s = choose|s: SegmentId| g.other_end(s, n) == Some(m);
        assert(ids.contains(s));
        let k = choose|k: int| 0 <= k < ids.len() && ids[k] == s;
        assert(far[k] == m);
    }
    vstd::seq_lib::seq_to_set_is_finite(far);
    assert(around.subset_of(far.to_set()));
    vstd::set_lib::lemma_set_subset_finite(far.to_set(), around);
}

/// Whether `a` and `b` are the nodes that segments join `n` to, and no others are.
pub open spec fn only_neighbors(g: GraphModel, n: NodeId, a: NodeId, b: NodeId) -> bool {
    &&& exists|s: SegmentId| joins_nodes(g, s, n, a)
    &&& exists|s: SegmentId| joins_nodes(g, s, n, b)
    &&& forall|s: SegmentId, m: NodeId| #[trigger] joins_nodes(g, s, n, m) ==> m == a || m == b
}

proof fn lemma_neighbors_joined(g: GraphModel, n: NodeId)
    ensures
        forall|m: NodeId|
            g.neighbor_nodes(n).contains(m) <==> exists|s: SegmentId|
                #[trigger] joins_nodes(g, s, n, m),
{
    assert forall|m: NodeId|
        g.neighbor_nodes(n).contains(m) <==> exists|s: SegmentId|
            #[trigger] joins_nodes(g, s, n, m) by {
        if g.neighbor_nodes(n).contains(m) {
            let s = choose|s: SegmentId| g.other_end(s, n) == Some(m);
            assert(joins_nodes(g, s, n, m));
        }
        if exists|s: SegmentId| #[trigger] joins_nodes(g, s, n, m) {
            let s = choose|s: SegmentId| #[trigger] joins_nodes(g, s, n, m);
            assert(g.other_end(s, n) == Some(m));
        }
    }
}

/// The far end of a segment as seen from a node is the node that it joins it to, and there is
/// none just where the segment does not touch the node.
pub proof fn law_far_ends_are_joined(g: GraphModel, s: SegmentId, n: NodeId, m: NodeId)
    ensures
        g.other_end(s, n) == Some(m) <==> joins_nodes(g, s, n, m),
        g.other_end(s, n) is None <==> forall|k: NodeId| !(#[trigger] joins_nodes(g, s, n, k)),
{
    if let Some(k) = g.other_end(s, n) {
        assert(joins_nodes(g, s, n, k));
    }
}

/// The neighbours of a node are the far ends of the segments that touch it, oldest first,
/// each with its segment.
pub proof fn law_neighbors_are_joined(g: GraphModel, n: NodeId)
    requires
        g.wf(),
    ensures
        g.neighbors(n).len() == touching_at(g.touching, n).len(),
        forall|i: int|
            0 <= i < g.neighbors(n).len() ==> (#[trigger] g.neighbors(n)[i]).1 == touching_at(
                g.touching,
                n,
            )[i] && joins_nodes(g, g.neighbors(n)[i].1, n, g.neighbors(n)[i].0),
        forall|s: SegmentId, m: NodeId| #[trigger]
            joins_nodes(g, s, n, m) ==> exists|i: int|
                0 <= i < g.neighbors(n).len() && #[trigger] g.neighbors(n)[i] == (m, s),
{
    let ids = touching_at(g.touching, n);
    let around = g.neighbors(n);
    assert forall|i: int| 0 <= i < around.len() implies (#[trigger] around[i]).1 == ids[i]
        && joins_nodes(g, around[i].1, n, around[i].0) by {
        assert(ids.contains(ids[i]));
    }
    assert forall|s: SegmentId, m: NodeId| #[trigger] joins_nodes(g, s, n, m) implies exists|i: int|
        0 <= i < around.len() && #[trigger] around[i] == (m, s) by {
        assert(ids.contains(s));
        let i = choose|i: int| 0 <= i < ids.len() && ids[i] == s;
        assert(around[i] == (m, s));
    }
}

} // verus!
