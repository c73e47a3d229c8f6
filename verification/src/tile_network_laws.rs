//! The edges that are written into a tile are the network that is loaded from it.
use vstd::prelude::*;
use vstd::utf8::encode_utf8;

use crate::text::law_text_round_trip;
use crate::tile_content::{
    grounded, law_new_records_become_the_network, names_are_new, names_differ, node_at, place_of,
    road_at, road_content, seg_at,
};
use crate::tile_format::{direction_of, header_of};
use crate::tile_merge::{loaded, merged, readable, LoadModel};
use crate::tile_round_trip::{
    has_room, law_attrs_unpack, law_node_reads_back, law_payload_header_reads_back,
    law_segment_reads_back, law_written_tiles_load, loadable, storable,
};
use crate::tile_writer::{
    distinct, endpoints, id_number, lemma_id_number_injective, place_index, plan_of, seg_out,
    ElementId, LmCrossTile, LmEdge, LmIntraTile, NodeTables, TilePlan,
};

verus! {

/// Whether the format has room for an edge: its stable id is at most 255 bytes long, it
/// has 2 to 65535 vertices, and its attributes are in range.
pub open spec fn edge_fits(e: LmEdge) -> bool {
    &&& encode_utf8(e.stable_id@).len() <= 255
    &&& 2 <= e.geom@.len() <= 0xffff
    &&& e.frc <= 7
    &&& e.fow <= 7
    &&& e.direction <= 2
}

/// Whether the place and the stable id of a node are known, and the format has room for
/// the stable id.
pub open spec fn node_fits(t: NodeTables, id: ElementId) -> bool {
    &&& t.lookup@.contains_key(id_number(id@))
    &&& t.stable_id@.contains_key(id_number(id@))
    &&& encode_utf8(node_name(t, id)).len() <= 255
}

/// The stable id of a node.
pub open spec fn node_name(t: NodeTables, id: ElementId) -> Seq<char> {
    t.stable_id@[id_number(id@)]@
}

/// The nodes of a tile with these edges.
pub open spec fn nodes_of(edges: Seq<LmEdge>) -> Seq<ElementId> {
    distinct(endpoints(edges))
}

/// The plan of a tile with these edges.
pub open spec fn plan_for(
    edges: Seq<LmEdge>,
    t: NodeTables,
    x: u32,
    y: u32,
    intra: Seq<LmIntraTile>,
    cross: Seq<LmCrossTile>,
) -> TilePlan {
    plan_of(edges, nodes_of(edges), place_index(nodes_of(edges)), t, x, y, intra, cross)
}

/// Whether the edges and nodes of a tile fit the format, and have stable ids of their own.
pub open spec fn edges_fit(edges: Seq<LmEdge>, t: NodeTables) -> bool {
    let order = nodes_of(edges);
    &&& forall|i: int| 0 <= i < edges.len() ==> edge_fits(#[trigger] edges[i])
    &&& forall|j: int| 0 <= j < order.len() ==> node_fits(t, #[trigger] order[j])
    &&& forall|i: int, j: int|
        0 <= i < j < edges.len() ==> (#[trigger] edges[i]).stable_id@ != (
        #[trigger] edges[j]).stable_id@
    &&& forall|i: int, j: int|
        0 <= i < j < order.len() ==> node_name(t, #[trigger] order[i]) != node_name(
            t,
            #[trigger] order[j],
        )
}

/// Whether the restrictions of a tile speak of edges and nodes of the tile, and the stable
/// ids in them fit the format.
pub open spec fn restrictions_fit(
    edges: Seq<LmEdge>,
    intra: Seq<LmIntraTile>,
    cross: Seq<LmCrossTile>,
) -> bool {
    &&& forall|i: int|
        0 <= i < intra.len() ==> (#[trigger] intra[i]).from_seg < edges.len() && intra[i].to_seg
            < edges.len() && intra[i].via_node < nodes_of(edges).len()
    &&& forall|i: int|
        0 <= i < cross.len() ==> (#[trigger] cross[i]).via_node_local < nodes_of(edges).len()
            && encode_utf8(cross[i].from_id@).len() <= 255 && encode_utf8(cross[i].to_id@).len()
            <= 255
}

/// Whether none of the stable ids of a tile is known yet.
pub open spec fn edges_are_new(l: LoadModel, edges: Seq<LmEdge>, t: NodeTables) -> bool {
    &&& forall|i: int|
        0 <= i < edges.len() ==> !l.seg_ids.contains_key((#[trigger] edges[i]).stable_id@)
    &&& forall|j: int|
        0 <= j < nodes_of(edges).len() ==> !l.node_ids.contains_key(
            node_name(t, #[trigger] nodes_of(edges)[j]),
        )
}

proof fn lemma_distinct(s: Seq<ElementId>)
    ensures
        distinct(s).no_duplicates(),
        forall|i: int| 0 <= i < s.len() ==> distinct(s).contains(#[trigger] s[i]),
    decreases s.len(),
{
    if s.len() > 0 {
        let rest = s.drop_last();
        let d = distinct(rest);
        lemma_distinct(rest);
        assert forall|i: int| 0 <= i < s.len() implies distinct(s).contains(#[trigger] s[i]) by {
            if i < rest.len() {
                assert(rest[i] == s[i]);
                let k = choose|k: int| 0 <= k < d.len() && d[k] == s[i];
                assert(distinct(s)[k] == s[i]);
            } else if !d.contains(s.last()) {
                assert(distinct(s)[d.len() as int] == s[i]);
            }
        }
    }
}

/// The place of a node among the nodes of the tile.
proof fn lemma_place(order: Seq<ElementId>, j: int)
    requires
        order.no_duplicates(),
        0 <= j < order.len() < 0x1_0000_0000,
    ensures
        place_index(order)[id_number(order[j]@)] == j,
    decreases order.len(),
{
    let rest = order.drop_last();
    let last = order.last();
    if j < rest.len() {
        lemma_place(rest, j);
        if id_number(rest[j]@) == id_number(last@) {
            lemma_id_number_injective(rest[j], last);
        }
    }
}

/// The place of one end of an edge among the nodes of the tile.
proof fn lemma_end_place(edges: Seq<LmEdge>, k: int)
    requires
        0 <= k < endpoints(edges).len(),
        nodes_of(edges).len() < 0x1_0000_0000,
    ensures
        ({
            let id = endpoints(edges)[k];
            let at = place_index(nodes_of(edges))[id_number(id@)];
            &&& at < nodes_of(edges).len()
            &&& nodes_of(edges)[at as int] == id
        }),
{
    let order = nodes_of(edges);
    lemma_distinct(endpoints(edges));
    let id = endpoints(edges)[k];
    assert(order.contains(id));
    let j = choose|j: int| 0 <= j < order.len() && order[j] == id;
    lemma_place(order, j);
}

/// The places of both ends of an edge among the nodes of the tile.
proof fn lemma_ends_placed(edges: Seq<LmEdge>, i: int)
    requires
        0 <= i < edges.len(),
        nodes_of(edges).len() < 0x1_0000_0000,
    ensures
        ({
            let order = nodes_of(edges);
            let s = seg_out(edges[i], place_index(order));
            &&& s.start < order.len()
            &&& s.end < order.len()
            &&& order[s.start as int] == edges[i].start_id
            &&& order[s.end as int] == edges[i].end_id
        }),
{
    lemma_end_place(edges, 2 * i);
    lemma_end_place(edges, 2 * i + 1);
    assert(endpoints(edges)[2 * i] == edges[i].start_id);
    assert(endpoints(edges)[2 * i + 1] == edges[i].end_id);
}

proof fn lemma_plan_is_loadable(
    edges: Seq<LmEdge>,
    t: NodeTables,
    x: u32,
    y: u32,
    intra: Seq<LmIntraTile>,
    cross: Seq<LmCrossTile>,
)
    requires
        edges_fit(edges, t),
        restrictions_fit(edges, intra, cross),
        has_room(plan_for(edges, t, x, y, intra, cross)),
    ensures
        loadable(plan_for(edges, t, x, y, intra, cross)),
{
    let plan = plan_for(edges, t, x, y, intra, cross);
    let order = nodes_of(edges);
    assert forall|j: int| 0 <= j < plan.nodes.len() implies storable(
        (#[trigger] plan.nodes[j]).id,
    ) by {
        assert(node_fits(t, order[j]));
        law_text_round_trip(node_name(t, order[j]));
    }
    assert forall|i: int| 0 <= i < plan.segs.len() implies {
        let s = #[trigger] plan.segs[i];
        &&& storable(s.id)
        &&& s.start < plan.nodes.len()
        &&& s.end < plan.nodes.len()
        &&& 2 <= s.geom.len() <= 0xffff
    } by {
        assert(edge_fits(edges[i]));
        law_text_round_trip(edges[i].stable_id@);
        lemma_ends_placed(edges, i);
    }
    assert forall|i: int| 0 <= i < plan.cross.len() implies {
        let r = #[trigger] plan.cross[i];
        &&& storable(r.from)
        &&& storable(r.to)
        &&& r.via < plan.nodes.len()
    } by {
        assert(cross[i].via_node_local < order.len());
        law_text_round_trip(cross[i].from_id@);
        law_text_round_trip(cross[i].to_id@);
    }
}

/// Node record `j` of the payload.
proof fn lemma_written_node(
    edges: Seq<LmEdge>,
    t: NodeTables,
    x: u32,
    y: u32,
    intra: Seq<LmIntraTile>,
    cross: Seq<LmCrossTile>,
    j: int,
)
    requires
        edges_fit(edges, t),
        has_room(plan_for(edges, t, x, y, intra, cross)),
        0 <= j < nodes_of(edges).len(),
    ensures
        ({
            let r = node_at(plan_for(edges, t, x, y, intra, cross).bytes(), j);
            let id = nodes_of(edges)[j];
            &&& r.stable_id == node_name(t, id)
            &&& (r.lon, r.lat) == t.lookup@[id_number(id@)]
        }),
{
    let plan = plan_for(edges, t, x, y, intra, cross);
    let id = nodes_of(edges)[j];
    assert(node_fits(t, id));
    law_text_round_trip(node_name(t, id));
    law_payload_header_reads_back(plan);
    law_node_reads_back(plan, j, node_name(t, id));
}

/// Segment record `i` of the payload.
proof fn lemma_written_record(
    edges: Seq<LmEdge>,
    t: NodeTables,
    x: u32,
    y: u32,
    intra: Seq<LmIntraTile>,
    cross: Seq<LmCrossTile>,
    i: int,
)
    requires
        edge_fits(edges[i]),
        has_room(plan_for(edges, t, x, y, intra, cross)),
        0 <= i < edges.len(),
    ensures
        ({
            let r = seg_at(plan_for(edges, t, x, y, intra, cross).bytes(), i);
            let s = seg_out(edges[i], place_index(nodes_of(edges)));
            let e = edges[i];
            &&& r.stable_id == e.stable_id@
            &&& r.start == s.start
            &&& r.end == s.end
            &&& r.geometry == e.geom@
            &&& r.length_cm == e.length_cm
            &&& r.frc == e.frc
            &&& r.fow == e.fow
            &&& r.direction == direction_of(e.direction as int)
        }),
{
    let plan = plan_for(edges, t, x, y, intra, cross);
    let e = edges[i];
    let s = seg_out(e, place_index(nodes_of(edges)));
    assert(plan.segs[i] == s);
    law_text_round_trip(e.stable_id@);
    lemma_ends_placed(edges, i);
    law_payload_header_reads_back(plan);
    law_segment_reads_back(plan, i, e.stable_id@);
    law_attrs_unpack(e.frc, e.fow, e.direction);
}

/// The segment that segment record `i` of the payload describes.
proof fn lemma_written_edge(
    edges: Seq<LmEdge>,
    t: NodeTables,
    x: u32,
    y: u32,
    intra: Seq<LmIntraTile>,
    cross: Seq<LmCrossTile>,
    i: int,
)
    requires
        edges_fit(edges, t),
        has_room(plan_for(edges, t, x, y, intra, cross)),
        0 <= i < edges.len(),
    ensures
        ({
            let b = plan_for(edges, t, x, y, intra, cross).bytes();
            let road = road_at(b, i);
            let e = edges[i];
            &&& seg_at(b, i).stable_id == e.stable_id@
            &&& road.start == node_name(t, e.start_id)
            &&& road.end == node_name(t, e.end_id)
            &&& road.geometry == e.geom@
            &&& road.length_cm == e.length_cm
            &&& road.frc == e.frc
            &&& road.fow == e.fow
            &&& road.direction == direction_of(e.direction as int)
        }),
{
    let s = seg_out(edges[i], place_index(nodes_of(edges)));
    assert(edge_fits(edges[i]));
    lemma_ends_placed(edges, i);
    lemma_written_record(edges, t, x, y, intra, cross, i);
    lemma_written_node(edges, t, x, y, intra, cross, s.start as int);
    lemma_written_node(edges, t, x, y, intra, cross, s.end as int);
}

/// A tile that was written is loaded as the network that it was written from: there is a
/// segment for each edge, with its stable id, attributes and line, between the nodes with
/// the stable ids of its ends; and there is a node for each node of the edges, at its
/// place.
pub proof fn law_written_edges_become_the_network(
    l: LoadModel,
    edges: Seq<LmEdge>,
    t: NodeTables,
    x: u32,
    y: u32,
    intra: Seq<LmIntraTile>,
    cross: Seq<LmCrossTile>,
)
    requires
        l.consistent(),
        grounded(l),
        edges_fit(edges, t),
        restrictions_fit(edges, intra, cross),
        edges_are_new(l, edges, t),
        has_room(plan_for(edges, t, x, y, intra, cross)),
        l.has_room(plan_for(edges, t, x, y, intra, cross).bytes().len()),
    ensures
        ({
            let b = plan_for(edges, t, x, y, intra, cross).bytes();
            let order = nodes_of(edges);
            let p = merged(l, b).0;
            let g = loaded(l, b).graph;
            &&& readable(l, b)
            &&& p.segs.len() == edges.len()
            &&& p.nodes.len() == order.len()
            &&& forall|i: int|
                0 <= i < edges.len() ==> {
                    let e = edges[i];
                    let s = g.segments[(#[trigger] p.segs[i]).0];
                    &&& g.segments.contains_key(p.segs[i].0)
                    &&& s.stable_id == e.stable_id@
                    &&& s.geometry == e.geom@
                    &&& s.length_cm == e.length_cm
                    &&& s.frc == e.frc
                    &&& s.fow == e.fow
                    &&& s.direction == direction_of(e.direction as int)
                    &&& g.nodes[s.start_node.0].stable_id == node_name(t, e.start_id)
                    &&& g.nodes[s.end_node.0].stable_id == node_name(t, e.end_id)
                }
            &&& forall|j: int|
                0 <= j < order.len() ==> {
                    let n = g.nodes[(#[trigger] p.nodes[j]).0];
                    &&& g.nodes.contains_key(p.nodes[j].0)
                    &&& n.stable_id == node_name(t, order[j])
                    &&& place_of(n) == t.lookup@[id_number(order[j]@)]
                }
        }),
{
    let plan = plan_for(edges, t, x, y, intra, cross);
    let b = plan.bytes();
    let order = nodes_of(edges);
    lemma_plan_is_loadable(edges, t, x, y, intra, cross);
    law_written_tiles_load(l, plan);
    law_payload_header_reads_back(plan);
    assert forall|i: int, j: int| 0 <= i < j < header_of(b).nodes implies (
    #[trigger] node_at(b, i)).stable_id != (#[trigger] node_at(b, j)).stable_id by {
        lemma_written_node(edges, t, x, y, intra, cross, i);
        lemma_written_node(edges, t, x, y, intra, cross, j);
        assert(node_name(t, order[i]) != node_name(t, order[j]));
    }
    assert forall|i: int, j: int| 0 <= i < j < header_of(b).segs implies (
    #[trigger] seg_at(b, i)).stable_id != (#[trigger] seg_at(b, j)).stable_id by {
        lemma_written_edge(edges, t, x, y, intra, cross, i);
        lemma_written_edge(edges, t, x, y, intra, cross, j);
        assert(edges[i].stable_id@ != edges[j].stable_id@);
    }
    assert(names_differ(b));
    assert forall|i: int| 0 <= i < header_of(b).nodes implies !l.node_ids.contains_key(
        (#[trigger] node_at(b, i)).stable_id,
    ) by {
        lemma_written_node(edges, t, x, y, intra, cross, i);
        assert(!l.node_ids.contains_key(node_name(t, order[i])));
    }
    assert forall|i: int| 0 <= i < header_of(b).segs implies !l.seg_ids.contains_key(
        (#[trigger] seg_at(b, i)).stable_id,
    ) by {
        lemma_written_edge(edges, t, x, y, intra, cross, i);
        assert(!l.seg_ids.contains_key(edges[i].stable_id@));
    }
    assert(names_are_new(l, b));
    law_new_records_become_the_network(l, b);
    let p = merged(l, b).0;
    let g = loaded(l, b).graph;
    assert forall|i: int| 0 <= i < edges.len() implies {
        let e = edges[i];
        let s = g.segments[(#[trigger] p.segs[i]).0];
        &&& g.segments.contains_key(p.segs[i].0)
        &&& s.stable_id == e.stable_id@
        &&& s.geometry == e.geom@
        &&& s.length_cm == e.length_cm
        &&& s.frc == e.frc
        &&& s.fow == e.fow
        &&& s.direction == direction_of(e.direction as int)
        &&& g.nodes[s.start_node.0].stable_id == node_name(t, e.start_id)
        &&& g.nodes[s.end_node.0].stable_id == node_name(t, e.end_id)
    } by {
        lemma_written_edge(edges, t, x, y, intra, cross, i);
        let s = g.segments[p.segs[i].0];
        assert(road_content(g, s) == road_at(b, i));
    }
    assert forall|j: int| 0 <= j < order.len() implies {
        let n = g.nodes[(#[trigger] p.nodes[j]).0];
        &&& g.nodes.contains_key(p.nodes[j].0)
        &&& n.stable_id == node_name(t, order[j])
        &&& place_of(n) == t.lookup@[id_number(order[j]@)]
    } by {
        lemma_written_node(edges, t, x, y, intra, cross, j);
    }
}

proof fn lemma_distinct_order(s: Seq<ElementId>)
    ensures
        forall|j: int| 0 <= j < distinct(s).len() ==> first_at(s, #[trigger] distinct(s)[j]) < s.len()
            && s[first_at(s, distinct(s)[j])] == distinct(s)[j],
        forall|i: int, j: int|
            0 <= i < j < distinct(s).len() ==> first_at(s, #[trigger] distinct(s)[i]) < first_at(
                s,
                #[trigger] distinct(s)[j],
            ),
    decreases s.len(),
{
    if s.len() > 0 {
        let rest = s.drop_last();
        let before = distinct(rest);
        let all = distinct(s);
        let last = s.last();
        lemma_distinct_order(rest);
        lemma_distinct(rest);
        assert forall|j: int| 0 <= j < before.len() implies first_at(s, #[trigger] before[j])
            == first_at(rest, before[j]) && first_at(rest, before[j]) < rest.len() && s[first_at(
            rest,
            before[j],
        )] == before[j] by {
            lemma_first_stays(rest, last, before[j]);
            assert(rest.push(last) =~= s);
        }
        if !before.contains(last) {
            assert(first_at(s, last) == rest.len()) by {
                lemma_first_new(rest, last);
                assert(rest.push(last) =~= s);
            }
        }
        assert forall|j: int| 0 <= j < all.len() implies first_at(s, #[trigger] all[j]) < s.len()
            && s[first_at(s, all[j])] == all[j] by {
            if j < before.len() {
                assert(all[j] == before[j]);
            }
        }
        assert forall|i: int, j: int| 0 <= i < j < all.len() implies first_at(
            s,
            #[trigger] all[i],
        ) < first_at(s, #[trigger] all[j]) by {
            assert(all[i] == before[i]);
            if j < before.len() {
                assert(all[j] == before[j]);
            }
        }
    }
}

/// Where an element first occurs, or the length where it does not occur.
pub open spec fn first_at(s: Seq<ElementId>, x: ElementId) -> int
    decreases s.len(),
{
    if s.len() == 0 {
        0
    } else if s[0] == x {
        0
    } else {
        1 + first_at(s.skip(1), x)
    }
}

proof fn lemma_first_stays(s: Seq<ElementId>, last: ElementId, x: ElementId)
    requires
        first_at(s, x) < s.len(),
    ensures
        first_at(s.push(last), x) == first_at(s, x),
        0 <= first_at(s, x),
        s.push(last)[first_at(s, x)] == s[first_at(s, x)],
    decreases s.len(),
{
    if s[0] != x {
        lemma_first_stays(s.skip(1), last, x);
        assert(s.push(last).skip(1) =~= s.skip(1).push(last));
    }
}

proof fn lemma_first_new(s: Seq<ElementId>, x: ElementId)
    requires
        !distinct(s).contains(x),
    ensures
        first_at(s.push(x), x) == s.len(),
{
    lemma_distinct(s);
    lemma_first_absent(s, x, s.len() as int);
}

proof fn lemma_first_absent(s: Seq<ElementId>, x: ElementId, n: int)
    requires
        n == s.len(),
        forall|i: int| 0 <= i < s.len() ==> #[trigger] s[i] != x,
    ensures
        first_at(s.push(x), x) == n,
    decreases s.len(),
{
    let t = s.push(x);
    if s.len() > 0 {
        assert(t[0] == s[0]);
        assert(t.skip(1) =~= s.skip(1).push(x));
        assert forall|i: int| 0 <= i < s.skip(1).len() implies #[trigger] s.skip(1)[i] != x by {
            assert(s.skip(1)[i] == s[i + 1]);
        }
        lemma_first_absent(s.skip(1), x, n - 1);
    }
}

/// The nodes of a tile are the ends of its edges: every end is among them, none is there
/// twice, nothing else is, and they stand in the order in which the edges first name them,
/// the start of an edge before its end.
pub proof fn law_tile_nodes_are_the_ends_of_edges(edges: Seq<LmEdge>, i: int)
    requires
        0 <= i < edges.len(),
    ensures
        nodes_of(edges).no_duplicates(),
        nodes_of(edges).contains(edges[i].start_id),
        nodes_of(edges).contains(edges[i].end_id),
        forall|j: int|
            0 <= j < nodes_of(edges).len() ==> first_at(
                endpoints(edges),
                #[trigger] nodes_of(edges)[j],
            ) < 2 * edges.len(),
        forall|j: int, k: int|
            0 <= j < k < nodes_of(edges).len() ==> first_at(
                endpoints(edges),
                #[trigger] nodes_of(edges)[j],
            ) < first_at(endpoints(edges), #[trigger] nodes_of(edges)[k]),
        endpoints(edges).len() == 2 * edges.len(),
        endpoints(edges)[2 * i] == edges[i].start_id,
        endpoints(edges)[2 * i + 1] == edges[i].end_id,
{
    let ends = endpoints(edges);
    lemma_distinct(ends);
    lemma_distinct_order(ends);
    assert(ends[2 * i] == edges[i].start_id);
    assert(ends[2 * i + 1] == edges[i].end_id);
}

} // verus!
