//! The rows that are stored for roads, and the edges that are read back from them.
use vstd::prelude::*;

use crate::canonical::{canonical_edge, CanonicalRow, GridLine};
use crate::extract::{edge_rows, new_nodes, MeasuredEdge, QEdgeModel, QNodeModel};
use crate::generic::{placed_road, EdgeBatch, TilePlacement};
use crate::graph::{Direction, GraphModel, SegmentId};
use crate::lowmem_tile::{
    edge_models, edge_of, fed, law_collinear_removal_keeps_the_ends, run_edges, streamed, tile_of,
    EdgeModel, EdgeRow, TileRun,
};
use crate::tile_content::{grounded, place_of};
use crate::tile_merge::{loaded, merged, readable, LoadModel};
use crate::tile_network_laws::{
    edge_fits, edges_are_new, edges_fit, law_written_edges_become_the_network, node_name, nodes_of, plan_for,
    restrictions_fit,
};
use crate::tile_round_trip::has_room;
use crate::tile_writer::{
    blob_vertices, id_number, law_geom_blob_round_trip, ElementId, LmCrossTile, LmEdge, LmIntraTile,
    NodeTables,
};

verus! {

/// Whether `r` is a row of an edge from `start` to `end`.
pub open spec fn row_of_edge(
    r: QEdgeModel,
    edge_idx: u32,
    start: ElementId,
    end: ElementId,
    parent: ElementId,
    stable_id: Seq<char>,
    length_cm: u32,
    direction: u8,
) -> bool {
    &&& r.edge_idx == edge_idx
    &&& r.start_id == start
    &&& r.end_id == end
    &&& r.parent_id == parent
    &&& r.stable_id == stable_id
    &&& r.length_cm == length_cm
    &&& r.direction == direction
}

/// Whether a node with this identifier, or what the nodes stored before hold of it, stands
/// at a place, and in a tile, under a stable id: a node that is stored now does.
pub open spec fn stored_at(
    seen: Set<ElementId>,
    nodes: Seq<QNodeModel>,
    id: ElementId,
    place: (i32, i32),
    tile: (u32, u32),
    stable_id: Seq<char>,
) -> bool {
    &&& seen.contains(id) <==> !(exists|i: int|
        0 <= i < nodes.len() && (#[trigger] nodes[i]).node_id == id)
    &&& forall|i: int|
        0 <= i < nodes.len() && (#[trigger] nodes[i]).node_id == id ==> {
            &&& (nodes[i].lon_e7, nodes[i].lat_e7) == place
            &&& nodes[i].tile == tile
            &&& nodes[i].stable_id == stable_id
        }
}

/// Every row that is stored for an edge runs from the edge's start node to its end node and
/// holds the edge's line, attributes and identifiers; the first lies in the tile of the
/// start and the last in that of the end. Of the two nodes, those that were not stored
/// before are stored now, at the places of the ends, and no others are.
pub proof fn law_stored_rows_hold_the_edge(seen: Set<ElementId>, e: MeasuredEdge, edge_idx: u32)
    ensures
        forall|i: int|
            0 <= i < edge_rows(e, edge_idx).len() ==> {
                let r = #[trigger] edge_rows(e, edge_idx)[i];
                &&& row_of_edge(
                    r,
                    edge_idx,
                    e.start.node_id,
                    e.end.node_id,
                    e.parent_id,
                    e.stable_id@,
                    e.length_cm,
                    e.direction,
                )
                &&& r.frc == e.frc
                &&& r.fow == e.fow
                &&& blob_vertices(r.geom_blob) == e.geom@
            },
        edge_rows(e, edge_idx).len() == if e.start.tile_x == e.end.tile_x && e.start.tile_y
            == e.end.tile_y {
            1int
        } else {
            2int
        },
        edge_rows(e, edge_idx).first().tile == (e.start.tile_x, e.start.tile_y),
        edge_rows(e, edge_idx).first().tile_id == e.start.tile_id,
        edge_rows(e, edge_idx).last().tile == (e.end.tile_x, e.end.tile_y),
        edge_rows(e, edge_idx).len() == 2 ==> edge_rows(e, edge_idx).last().tile_id
            == e.end.tile_id,
        stored_at(
            seen,
            new_nodes(seen, e),
            e.start.node_id,
            (e.start.lon_e7, e.start.lat_e7),
            (e.start.tile_x, e.start.tile_y),
            e.start.stable_id@,
        ),
        e.end.node_id != e.start.node_id ==> stored_at(
            seen,
            new_nodes(seen, e),
            e.end.node_id,
            (e.end.lon_e7, e.end.lat_e7),
            (e.end.tile_x, e.end.tile_y),
            e.end.stable_id@,
        ),
        forall|i: int|
            0 <= i < new_nodes(seen, e).len() ==> (#[trigger] new_nodes(seen, e)[i]).node_id
                == e.start.node_id || new_nodes(seen, e)[i].node_id == e.end.node_id,
{
    law_geom_blob_round_trip(e.geom@);
    let nodes = new_nodes(seen, e);
    if !seen.contains(e.start.node_id) {
        assert(nodes[0].node_id == e.start.node_id);
    }
    if !seen.contains(e.end.node_id) && e.end.node_id != e.start.node_id {
        assert(nodes.last() == nodes[nodes.len() - 1]);
        assert(nodes[nodes.len() - 1].node_id == e.end.node_id);
    }
}

/// Whether the row `r` of an edge and the nodes that are stored with it agree: the node
/// where the edge starts stands at the first vertex of the row's line, and the node where
/// it ends at the last.
pub open spec fn nodes_at_ends(
    seen: Set<ElementId>,
    nodes: Seq<QNodeModel>,
    r: QEdgeModel,
    start_tile: (u32, u32),
    end_tile: (u32, u32),
    start_name: Seq<char>,
    end_name: Seq<char>,
) -> bool {
    let line = blob_vertices(r.geom_blob);
    &&& line.len() >= 1
    &&& stored_at(seen, nodes, r.start_id, line.first(), start_tile, start_name)
    &&& r.end_id != r.start_id ==> stored_at(
        seen,
        nodes,
        r.end_id,
        line.last(),
        end_tile,
        end_name,
    )
}

/// Every row that is stored for a row of the canonical table starts at the row's start node
/// and ends at its end node, under the row's keys and ids, with the row's attributes. The
/// nodes that are stored with it stand at the first and the last point of the line, in the
/// tiles given for them.
pub proof fn law_canonical_rows_are_stored_as_they_are(
    seen: Set<ElementId>,
    row: CanonicalRow,
    direction: u8,
    line: GridLine,
    e: MeasuredEdge,
    edge_idx: u32,
)
    requires
        line.points@.len() >= 2,
        canonical_edge(row, direction, line, e),
    ensures
        forall|i: int|
            0 <= i < edge_rows(e, edge_idx).len() ==> {
                let r = #[trigger] edge_rows(e, edge_idx)[i];
                &&& row_of_edge(
                    r,
                    edge_idx,
                    row.start_key,
                    row.end_key,
                    row.parent_key,
                    row.id@,
                    line.length_cm,
                    direction,
                )
                &&& 0 <= row.frc <= 255 ==> r.frc == row.frc
                &&& 0 <= row.fow <= 255 ==> r.fow == row.fow
                &&& blob_vertices(r.geom_blob).first() == line.points@.first()
                &&& blob_vertices(r.geom_blob).last() == line.points@.last()
                &&& nodes_at_ends(
                    seen,
                    new_nodes(seen, e),
                    r,
                    (line.start_tile.0, line.start_tile.1),
                    (line.end_tile.0, line.end_tile.1),
                    row.start_node_id@,
                    row.end_node_id@,
                )
            },
        edge_rows(e, edge_idx).first().tile == (line.start_tile.0, line.start_tile.1),
        edge_rows(e, edge_idx).first().tile_id == line.start_tile.2,
        edge_rows(e, edge_idx).last().tile == (line.end_tile.0, line.end_tile.1),
        edge_rows(e, edge_idx).len() == 2 ==> edge_rows(e, edge_idx).last().tile_id
            == line.end_tile.2,
{
    law_stored_rows_hold_the_edge(seen, e, edge_idx);
    law_collinear_removal_keeps_the_ends(line.points@);
}

/// Every row that is stored for a road starts at the road's start node and ends at its end
/// node, with the road's line and attributes. The nodes that are stored with it stand at the
/// first and the last vertex of that line, in the tiles given for them.
pub proof fn law_roads_are_stored_as_they_are(
    seen: Set<ElementId>,
    b: EdgeBatch,
    stable_id: Seq<char>,
    start: TilePlacement,
    end: TilePlacement,
    e: MeasuredEdge,
    edge_idx: u32,
)
    requires
        b.geom@.len() >= 1,
        placed_road(b, stable_id, start, end, e),
    ensures
        forall|i: int|
            0 <= i < edge_rows(e, edge_idx).len() ==> {
                let r = #[trigger] edge_rows(e, edge_idx)[i];
                &&& row_of_edge(
                    r,
                    edge_idx,
                    b.start_id,
                    b.end_id,
                    b.parent_id,
                    stable_id,
                    b.length_cm,
                    b.direction,
                )
                &&& r.frc == b.frc
                &&& r.fow == b.fow
                &&& blob_vertices(r.geom_blob) == b.geom@
                &&& nodes_at_ends(
                    seen,
                    new_nodes(seen, e),
                    r,
                    (start.tile.0, start.tile.1),
                    (end.tile.0, end.tile.1),
                    start.stable_id@,
                    end.stable_id@,
                )
            },
        edge_rows(e, edge_idx).first().tile == (start.tile.0, start.tile.1),
        edge_rows(e, edge_idx).first().tile_id == start.tile.2,
        edge_rows(e, edge_idx).last().tile == (end.tile.0, end.tile.1),
        edge_rows(e, edge_idx).len() == 2 ==> edge_rows(e, edge_idx).last().tile_id
            == end.tile.2,
{
    law_stored_rows_hold_the_edge(seen, e, edge_idx);
}

/// Whether an edge holds what its row holds, wherever a number of the row is in range.
pub open spec fn holds_row(e: EdgeModel, row: EdgeRow) -> bool {
    &&& e.stable_id == row.stable_id@
    &&& e.start_id == row.start_id
    &&& e.end_id == row.end_id
    &&& e.geom == blob_vertices(row.geom_blob@)
    &&& 0 <= row.edge_idx <= u32::MAX ==> e.edge_idx == row.edge_idx
    &&& 0 <= row.length_cm <= u32::MAX ==> e.length_cm == row.length_cm
    &&& 0 <= row.frc <= u8::MAX ==> e.frc == row.frc
    &&& 0 <= row.fow <= u8::MAX ==> e.fow == row.fow
    &&& 0 <= row.direction <= u8::MAX ==> e.direction == row.direction
}

/// All runs that a stream returns for `rows`: those that it returns while rows arrive, and
/// the one that it still holds when it is finished.
pub open spec fn returned(rows: Seq<EdgeRow>) -> Seq<TileRun> {
    match streamed(rows).0 {
        Some(run) => streamed(rows).1.push(run),
        None => streamed(rows).1,
    }
}

/// Whether place `k` of run `r` holds row `i`, in the run of the row's tile.
pub open spec fn in_its_run(runs: Seq<TileRun>, rows: Seq<EdgeRow>, i: int, r: int, k: int) -> bool {
    &&& 0 <= r < runs.len()
    &&& 0 <= k < runs[r].edges.len()
    &&& run_edges(runs.take(r)).len() + k == i
    &&& holds_row(runs[r].edges[k], rows[i])
    &&& 0 <= rows[i].tile_x <= u32::MAX ==> runs[r].tile.0 == rows[i].tile_x
    &&& 0 <= rows[i].tile_y <= u32::MAX ==> runs[r].tile.1 == rows[i].tile_y
    &&& k == runs[r].edges.len() - 1 && 0 <= rows[i].tile_id ==> runs[r].tile_id
        == rows[i].tile_id
}

proof fn lemma_run_edges_len(runs: Seq<TileRun>, more: TileRun)
    ensures
        run_edges(runs.push(more)).len() == run_edges(runs).len() + more.edges.len(),
{
    assert(runs.push(more).drop_last() =~= runs);
}

/// Whether row `i` comes out in the run of its tile.
pub open spec fn comes_out(runs: Seq<TileRun>, rows: Seq<EdgeRow>, i: int) -> bool {
    exists|r: int, k: int| in_its_run(runs, rows, i, r, k)
}

proof fn lemma_row_comes_out(row: EdgeRow)
    ensures
        holds_row(edge_of(row), row),
        0 <= row.tile_x <= u32::MAX ==> tile_of(row).0 == row.tile_x,
        0 <= row.tile_y <= u32::MAX ==> tile_of(row).1 == row.tile_y,
{
}

proof fn lemma_stays_in_its_run(
    runs: Seq<TileRun>,
    rows: Seq<EdgeRow>,
    longer: Seq<TileRun>,
    row: EdgeRow,
    i: int,
)
    requires
        0 <= i < rows.len(),
        comes_out(runs, rows, i),
        ({
            ||| longer.drop_last() == runs && longer.len() == runs.len() + 1
            ||| {
                &&& runs.len() > 0
                &&& longer.len() == runs.len()
                &&& longer.drop_last() == runs.drop_last()
                &&& longer.last().tile == runs.last().tile
                &&& longer.last().edges == runs.last().edges.push(edge_of(row))
            }
        }),
    ensures
        comes_out(longer, rows.push(row), i),
{
    let (r, k) = choose|r: int, k: int| in_its_run(runs, rows, i, r, k);
    assert(longer.take(r) =~= runs.take(r)) by {
        assert forall|j: int| 0 <= j < r implies longer[j] == runs[j] by {
            assert(longer.drop_last()[j] == longer[j]);
            if longer.len() == runs.len() {
                assert(runs.drop_last()[j] == runs[j]);
            }
        }
    }
    if r < longer.len() - 1 {
        assert(longer.drop_last()[r] == longer[r]);
        if longer.len() == runs.len() {
            assert(runs.drop_last()[r] == runs[r]);
        }
        assert(longer[r] == runs[r]);
    } else {
        assert(longer[r] == longer.last() && runs[r] == runs.last());
    }
    assert(rows.push(row)[i] == rows[i]);
    assert(in_its_run(longer, rows.push(row), i, r, k));
}

/// Every row that arrives in a stream comes out of it once, in the order of arrival, in a
/// run of its own tile, as an edge that holds what the row holds.
pub proof fn law_stream_edges_hold_their_rows(rows: Seq<EdgeRow>)
    ensures
        run_edges(returned(rows)).len() == rows.len(),
        forall|i: int| 0 <= i < rows.len() ==> #[trigger] comes_out(returned(rows), rows, i),
        streamed(rows).0 is Some <==> rows.len() > 0,
    decreases rows.len(),
{
    if rows.len() > 0 {
        let before = rows.drop_last();
        let row = rows.last();
        law_stream_edges_hold_their_rows(before);
        assert(before.push(row) =~= rows);
        let (open, out) = streamed(before);
        let (open2, done) = fed(open, row);
        let runs = returned(before);
        let longer = returned(rows);
        let last = longer.last();
        assert(longer.drop_last().push(last) =~= longer);
        if done is None && open is Some {
            assert(runs.drop_last() =~= out);
            assert(longer.drop_last() =~= out);
            lemma_run_edges_len(out, runs.last());
            lemma_run_edges_len(out, last);
            assert(out.push(runs.last()) =~= runs);
        } else {
            assert(longer.drop_last() =~= runs);
            lemma_run_edges_len(runs, last);
        }
        assert forall|i: int| 0 <= i < rows.len() implies #[trigger] comes_out(
            longer,
            rows,
            i,
        ) by {
            if i < before.len() {
                assert(comes_out(runs, before, i));
                lemma_stays_in_its_run(runs, before, longer, row, i);
            } else {
                lemma_row_comes_out(row);
                let r = longer.len() - 1;
                assert(longer.take(r) =~= longer.drop_last());
                assert(in_its_run(longer, rows, i, r, last.edges.len() - 1));
            }
        }
    }
}

/// Whether a segment is driven just as a stored direction says: 0 both ways, 1 along its
/// line, 2 against it.
pub open spec fn driven_as(d: Direction, direction: i64) -> bool {
    &&& direction == 0 ==> d == Direction::Both
    &&& direction == 1 ==> d == Direction::Forward
    &&& direction == 2 ==> d == Direction::Backward
}

proof fn lemma_edges_hold_rows(rows: Seq<EdgeRow>, run: TileRun, edges: Seq<LmEdge>)
    requires
        returned(rows) == seq![run],
        edge_models(edges) == run.edges,
    ensures
        edges.len() == rows.len(),
        forall|i: int| 0 <= i < rows.len() ==> holds_row((#[trigger] edges[i])@, rows[i]),
{
    law_stream_edges_hold_their_rows(rows);
    let runs = returned(rows);
    let none = Seq::<TileRun>::empty();
    assert(none.push(run) =~= runs);
    lemma_run_edges_len(none, run);
    assert(run_edges(none).len() == 0);
    assert(edge_models(edges).len() == edges.len());
    assert forall|i: int| 0 <= i < rows.len() implies holds_row(
        (#[trigger] edges[i])@,
        rows[i],
    ) by {
        assert(comes_out(runs, rows, i));
        let (r, k) = choose|r: int, k: int| in_its_run(runs, rows, i, r, k);
        assert(runs.take(r) =~= none);
        assert(edge_models(edges)[i] == edges[i]@);
    }
}

/// Whether segment `id` of a network is the one that a row stores.
pub open spec fn segment_of_row(
    g: GraphModel,
    id: SegmentId,
    row: EdgeRow,
    t: NodeTables,
) -> bool {
    let s = g.segments[id.0];
    &&& g.segments.contains_key(id.0)
    &&& s.stable_id == row.stable_id@
    &&& s.geometry == blob_vertices(row.geom_blob@)
    &&& s.length_cm == row.length_cm
    &&& s.frc == row.frc
    &&& s.fow == row.fow
    &&& driven_as(s.direction, row.direction)
    &&& g.nodes[s.start_node.0].stable_id == node_name(t, row.start_id)
    &&& g.nodes[s.end_node.0].stable_id == node_name(t, row.end_id)
}

/// The rows of one tile are the network that is loaded from the tile written of them. There
/// is one segment for each row, with the row's stable id, line, length, road class, form of
/// way and direction, from the node of the row's start to the node of its end; and each node
/// stands where the tables have it.
pub proof fn law_stored_rows_become_the_network(
    l: LoadModel,
    rows: Seq<EdgeRow>,
    run: TileRun,
    edges: Seq<LmEdge>,
    t: NodeTables,
    x: u32,
    y: u32,
    intra: Seq<LmIntraTile>,
    cross: Seq<LmCrossTile>,
)
    requires
        returned(rows) == seq![run],
        edge_models(edges) == run.edges,
        forall|i: int|
            0 <= i < rows.len() ==> 0 <= (#[trigger] rows[i]).direction <= 2 && 0 <= rows[i].frc
                <= 7 && 0 <= rows[i].fow <= 7 && 0 <= rows[i].length_cm <= u32::MAX,
        l.consistent(),
        grounded(l),
        edges_fit(edges, t),
        restrictions_fit(edges, intra, cross),
        edges_are_new(l, edges, t),
        has_room(plan_for(edges, t, x, y, intra, cross)),
        l.has_room(plan_for(edges, t, x, y, intra, cross).bytes().len()),
    ensures
        ({
            let b = plan_for(edges, t, x, y, intra, cross).bytes();
            let p = merged(l, b).0;
            let g = loaded(l, b).graph;
            &&& readable(l, b)
            &&& p.segs.len() == rows.len()
            &&& forall|i: int|
                0 <= i < rows.len() ==> segment_of_row(g, #[trigger] p.segs[i], rows[i], t)
            &&& forall|j: int|
                0 <= j < nodes_of(edges).len() ==> {
                    let n = g.nodes[(#[trigger] p.nodes[j]).0];
                    &&& n.stable_id == node_name(t, nodes_of(edges)[j])
                    &&& place_of(n) == t.lookup@[id_number(nodes_of(edges)[j]@)]
                }
        }),
{
    lemma_edges_hold_rows(rows, run, edges);
    law_written_edges_become_the_network(l, edges, t, x, y, intra, cross);
    let b = plan_for(edges, t, x, y, intra, cross).bytes();
    let p = merged(l, b).0;
    let g = loaded(l, b).graph;
    assert forall|i: int| 0 <= i < rows.len() implies segment_of_row(
        g,
        #[trigger] p.segs[i],
        rows[i],
        t,
    ) by {
        assert(holds_row(edges[i]@, rows[i]));
        assert(edge_fits(edges[i]));
    }
}

} // verus!
