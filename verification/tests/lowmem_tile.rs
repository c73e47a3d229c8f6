use std::collections::HashMap;

use openlrlens::graph::{Direction, Graph, NetworkNode, NetworkSegment, NodeId};
use openlrlens::lowmem_tile::{
    flush_tile, group_by_tile, remove_collinear_lm, resolve_restrictions, EdgeIndex, EdgeMetaRow,
    EdgeRow, NodeRow, RestrictionRow, TileEdges, TileStream,
};
use openlrlens::tile_reader::TileLoader;
use openlrlens::tile_writer::{
    blob_to_geom, blob_to_id, build_lm_tile_payload, compute_tile_nodes_lm, geom_to_blob, id_key,
    pack_attrs_lm, LmEdge, NodeTables,
};

fn segments(g: &Graph) -> Vec<&NetworkSegment> {
    g.segment_ids().iter().map(|id| g.segment(*id).unwrap()).collect()
}

fn nodes(g: &Graph) -> Vec<&NetworkNode> {
    (0..1000u32).filter_map(|i| g.node(NodeId(i))).collect()
}

// ── Blobs ─────────────────────────────────────────────────────────────────────

#[test]
fn geom_blob_roundtrips() {
    let geom = vec![(1_747_700_000i32, -366_000_000), (1_748_000_000, -365_500_000), (0, 0)];
    let blob = geom_to_blob(&geom);
    assert_eq!(blob.len(), geom.len() * 8);
    assert_eq!(blob_to_geom(&blob), geom);
}

#[test]
fn geom_blob_empty_roundtrips() {
    let geom: Vec<(i32, i32)> = vec![];
    assert_eq!(blob_to_geom(&geom_to_blob(&geom)), geom);
}

#[test]
fn geom_blob_is_little_endian() {
    assert_eq!(geom_to_blob(&[(1, -2)]), vec![1, 0, 0, 0, 0xfe, 0xff, 0xff, 0xff]);
    // Bytes that make no whole vertex are left out.
    assert_eq!(blob_to_geom(&[1, 0, 0, 0, 2, 0, 0, 0, 9]), vec![(1, 2)]);
}

#[test]
fn blob_to_id_reads_16_bytes() {
    let id = [7u8; 16];
    assert_eq!(blob_to_id(&id), id);
}

// ── Attribute packing ─────────────────────────────────────────────────────────

#[test]
fn pack_attrs_lm_matches_tile_rs_bit_layout() {
    // frc[2:0] | fow[5:3] | direction[7:6]
    let packed = pack_attrs_lm(3, 5, 2);
    assert_eq!(packed & 0x07, 3);
    assert_eq!((packed >> 3) & 0x07, 5);
    assert_eq!((packed >> 6) & 0x03, 2);
}

// ── Collinear removal ─────────────────────────────────────────────────────────

#[test]
fn collinear_removal_keeps_endpoints() {
    let pts = vec![(0i32, 0), (0, 5), (0, 10)];
    assert_eq!(remove_collinear_lm(pts), vec![(0, 0), (0, 10)]);
}

#[test]
fn collinear_removal_keeps_bend() {
    let pts = vec![(0i32, 0), (1, 5), (2, 0)];
    assert_eq!(remove_collinear_lm(pts).len(), 3);
}

#[test]
fn collinear_removal_chain() {
    let pts = vec![(0i32, 0), (1, 1), (2, 2), (3, 1)];
    assert_eq!(remove_collinear_lm(pts), vec![(0, 0), (2, 2), (3, 1)]);
}

#[test]
fn two_point_line_unchanged_lm() {
    let pts = vec![(0i32, 0), (1, 1)];
    assert_eq!(remove_collinear_lm(pts.clone()), pts);
}

#[test]
fn collinear_removal_at_the_edge_of_the_grid() {
    // Differences of coordinates that do not fit in 32 bits.
    let lo = i32::MIN;
    let hi = i32::MAX;
    assert_eq!(remove_collinear_lm(vec![(lo, lo), (0, 1), (hi, hi)]).len(), 3);
    assert_eq!(remove_collinear_lm(vec![(lo, 5), (0, 5), (hi, 5)]), vec![(lo, 5), (hi, 5)]);
    assert_eq!(remove_collinear_lm(vec![(lo, 5), (hi, 5), (0, 5)]).len(), 3);
}

// ── Tile-local node ordering ──────────────────────────────────────────────────

fn make_edge(edge_idx: u32, stable_id: &str, start: [u8; 16], end: [u8; 16]) -> LmEdge {
    LmEdge {
        edge_idx,
        stable_id: stable_id.to_string(),
        start_id: start,
        end_id: end,
        geom: vec![(0, 0), (1, 1)],
        length_cm: 100,
        frc: 3,
        fow: 3,
        direction: 0,
    }
}

#[test]
fn compute_tile_nodes_dedupes_shared_endpoints() {
    // Two edges sharing node B: A-B, B-C: B must appear exactly once.
    let a = [1u8; 16];
    let b = [2u8; 16];
    let c = [3u8; 16];
    let edges = vec![make_edge(0, "e0", a, b), make_edge(1, "e1", b, c)];
    let (order, index) = compute_tile_nodes_lm(&edges);
    assert_eq!(order.len(), 3, "A, B, C must each appear exactly once");
    assert_eq!(order[index[&id_key(&a)] as usize], a);
    assert_eq!(order[index[&id_key(&b)] as usize], b);
    assert_eq!(order[index[&id_key(&c)] as usize], c);
}

// ── Tiles out of sorted rows ──────────────────────────────────────────────────

/// The tile of a place at a zoom level.
fn lon_lat_to_tile_xy(lon: f64, lat: f64, zoom: u8) -> (u32, u32) {
    let n = f64::from(1u32 << zoom);
    let x = (lon + 180.0) / 360.0 * n;
    let y = (1.0 - lat.to_radians().tan().asinh() / std::f64::consts::PI) / 2.0 * n;
    (x.floor() as u32, y.floor() as u32)
}

fn flush_all(rows: Vec<EdgeRow>, tables: &NodeTables) -> Vec<Vec<u8>> {
    let mut stream = TileStream::new();
    let mut tiles: Vec<TileEdges> = Vec::new();
    for row in rows {
        tiles.extend(stream.push(row));
    }
    tiles.extend(stream.finish());
    let none = HashMap::new();
    tiles.iter().map(|t| flush_tile(t.tile_x, t.tile_y, &t.edges, tables, &[], &none)).collect()
}

#[test]
fn boundary_spanning_edge_is_duplicated_into_both_tiles() {
    // A realistic edge of about 150 m at zoom 12, straddling one tile boundary in x.
    let tile_zoom = 12u8;
    let (a_tx, a_ty) = lon_lat_to_tile_xy(-0.001, 45.0, tile_zoom);
    let (b_tx, b_ty) = lon_lat_to_tile_xy(0.001, 45.0, tile_zoom);
    assert_eq!((a_tx, a_ty), (2047, 1473));
    assert_eq!((b_tx, b_ty), (2048, 1473));

    let node_a: [u8; 16] = [1u8; 16];
    let node_b: [u8; 16] = [2u8; 16];

    let mut tables = NodeTables::new();
    tables.add(NodeRow {
        node_id: node_a,
        lon_e7: -10_000,
        lat_e7: 450_000_000,
        tile_x: a_tx as i64,
        tile_y: a_ty as i64,
        stable_id: "nodeA".to_string(),
    });
    tables.add(NodeRow {
        node_id: node_b,
        lon_e7: 10_000,
        lat_e7: 450_000_000,
        tile_x: b_tx as i64,
        tile_y: b_ty as i64,
        stable_id: "nodeB".to_string(),
    });

    let geom = geom_to_blob(&[(-10_000, 450_000_000), (10_000, 450_000_000)]);
    // One row per home tile.
    let rows = [(a_tx, a_ty, 1i64), (b_tx, b_ty, 2i64)]
        .iter()
        .map(|&(tx, ty, tile_id)| EdgeRow {
            edge_idx: 0,
            start_id: node_a,
            end_id: node_b,
            geom_blob: geom.clone(),
            length_cm: 15,
            frc: 3,
            fow: 3,
            direction: 0,
            tile_x: tx as i64,
            tile_y: ty as i64,
            tile_id,
            stable_id: "edgeAB".to_string(),
        })
        .collect();

    // Each payload goes into a loader of its own, so that each tile is seen for itself.
    let mut per_tile_graphs = Vec::new();
    for bytes in flush_all(rows, &tables) {
        let mut loader = TileLoader::new();
        loader.load_tile_at(tile_zoom, 0, 0, &bytes).unwrap();
        per_tile_graphs.push(loader.graph);
    }
    assert_eq!(per_tile_graphs.len(), 2, "the boundary-spanning edge must produce exactly 2 tiles");

    for graph in &per_tile_graphs {
        let all = segments(graph);
        let matching: Vec<_> = all.iter().filter(|s| s.stable_id == "edgeAB").collect();
        assert_eq!(matching.len(), 1, "edgeAB must be present exactly once in each tile it's binned into");
        assert_eq!(matching[0].frc, 3);
        assert_eq!(matching[0].fow, 3);
    }

    for graph in &per_tile_graphs {
        let all = nodes(graph);
        let a = all.iter().find(|n| n.stable_id == "nodeA").expect("node A must be present");
        let b = all.iter().find(|n| n.stable_id == "nodeB").expect("node B must be present");
        assert_ne!(a.is_boundary, b.is_boundary, "in any one tile, exactly one endpoint is local and the other is boundary");
    }
}

fn edge_row(edge_idx: i64, start: u8, end: u8, tile_id: i64) -> EdgeRow {
    EdgeRow {
        edge_idx,
        start_id: [start; 16],
        end_id: [end; 16],
        geom_blob: geom_to_blob(&[(i32::from(start), 0), (i32::from(end), 0)]),
        length_cm: 100 + edge_idx,
        frc: 2,
        fow: 4,
        direction: 1,
        tile_x: tile_id,
        tile_y: 0,
        tile_id,
        stable_id: format!("edge-{edge_idx}"),
    }
}

#[test]
fn stream_closes_a_tile_when_the_next_one_starts() {
    let mut stream = TileStream::new();
    assert!(stream.push(edge_row(0, 1, 2, 7)).is_none());
    assert!(stream.push(edge_row(1, 2, 3, 7)).is_none());
    let first = stream.push(edge_row(2, 3, 4, 8)).expect("tile 7 is complete");
    assert_eq!((first.tile_x, first.tile_y, first.tile_id), (7, 0, 7));
    assert_eq!(first.edges.iter().map(|e| e.edge_idx).collect::<Vec<_>>(), vec![0, 1]);
    let last = stream.finish().expect("tile 8 is still open");
    assert_eq!(last.tile_id, 8);
    assert_eq!(last.edges[0].length_cm, 102);
    assert_eq!(last.edges[0].geom, vec![(3, 0), (4, 0)]);
    assert!(TileStream::new().finish().is_none());
}

fn node_row(id: u8, tile: i64) -> NodeRow {
    NodeRow {
        node_id: [id; 16],
        lon_e7: i32::from(id),
        lat_e7: 0,
        tile_x: tile,
        tile_y: 0,
        stable_id: format!("node-{id}"),
    }
}

fn meta_row(edge_idx: i64, start: u8, end: u8, parent: u8) -> EdgeMetaRow {
    EdgeMetaRow {
        edge_idx,
        start_id: [start; 16],
        end_id: [end; 16],
        parent_id: [parent; 16],
        tile_id: 7,
        stable_id: format!("edge-{edge_idx}"),
    }
}

/// Roads 1-2 (parent 11) and 2-3 (parent 12), with a turn from one into the other.
fn turn_at_two() -> (EdgeIndex, NodeTables) {
    let mut index = EdgeIndex::new();
    index.add(meta_row(0, 1, 2, 11));
    index.add(meta_row(1, 2, 3, 12));
    let mut tables = NodeTables::new();
    tables.add(node_row(1, 7));
    tables.add(node_row(2, 7));
    tables.add(node_row(3, 7));
    (index, tables)
}

#[test]
fn restrictions_are_resolved_to_edges() {
    let (index, tables) = turn_at_two();
    assert_eq!(index.tile_count(), 1);
    let rows = vec![
        RestrictionRow { from_id: [11; 16], via_id: [2; 16], to_id: [12; 16], flags: 5 },
        RestrictionRow { from_id: [99; 16], via_id: [2; 16], to_id: [12; 16], flags: 0 },
    ];
    let (resolved, dropped) = resolve_restrictions(&index, &tables, &rows);
    assert_eq!(resolved.len(), 1);
    assert_eq!(dropped, 1);
    assert_eq!((resolved[0].from_edge_idx, resolved[0].to_edge_idx, resolved[0].flags), (0, 1, 5));
    assert_eq!(resolved[0].from_stable_id, "edge-0");
    assert_eq!((resolved[0].via_tile_x, resolved[0].via_tile_y), (7, 0));
}

#[test]
fn a_written_tile_reads_back() {
    let (index, tables) = turn_at_two();
    let rows = vec![RestrictionRow { from_id: [11; 16], via_id: [2; 16], to_id: [12; 16], flags: 0 }];
    let (resolved, _) = resolve_restrictions(&index, &tables, &rows);
    let by_tile = group_by_tile(&resolved);
    let mut stream = TileStream::new();
    assert!(stream.push(edge_row(0, 1, 2, 7)).is_none());
    assert!(stream.push(edge_row(1, 2, 3, 7)).is_none());
    let tile = stream.finish().unwrap();
    let payload = flush_tile(tile.tile_x, tile.tile_y, &tile.edges, &tables, &resolved, &by_tile);

    let mut loader = TileLoader::new();
    loader.load_tile_at(12, 7, 0, &payload).unwrap();
    let g = &loader.graph;
    assert_eq!(g.nodes_count(), 3);
    let all = segments(g);
    assert_eq!(all.iter().map(|s| s.stable_id.as_str()).collect::<Vec<_>>(), vec!["edge-0", "edge-1"]);
    assert_eq!(all[1].geometry, vec![(2, 0), (3, 0)]);
    assert_eq!((all[1].length_cm, all[1].frc, all[1].fow), (101, 2, 4));
    assert_eq!(g.restrictions_count(), 1);
    let turn = &g.restrictions()[0];
    assert_eq!(turn.from_seg, all[0].id);
    assert_eq!(turn.to_seg, all[1].id);
    assert!(nodes(g).iter().all(|n| !n.is_boundary));
}

#[test]
fn a_restriction_from_another_tile_is_written_by_name() {
    // The second road lies in another tile: its edge is not among those flushed.
    let (index, tables) = turn_at_two();
    let rows = vec![RestrictionRow { from_id: [11; 16], via_id: [2; 16], to_id: [12; 16], flags: 0 }];
    let (resolved, _) = resolve_restrictions(&index, &tables, &rows);
    let by_tile = group_by_tile(&resolved);
    let mut stream = TileStream::new();
    assert!(stream.push(edge_row(0, 1, 2, 7)).is_none());
    let here = stream.push(edge_row(1, 2, 3, 8)).unwrap();
    let there = stream.finish().unwrap();
    let payload = flush_tile(here.tile_x, here.tile_y, &here.edges, &tables, &resolved, &by_tile);

    let mut loader = TileLoader::new();
    loader.load_tile_at(12, 7, 0, &payload).unwrap();
    assert_eq!(loader.pending_count(), 1);
    let payload = flush_tile(there.tile_x, there.tile_y, &there.edges, &tables, &resolved, &by_tile);
    loader.load_tile_at(12, 8, 0, &payload).unwrap();
    assert_eq!(loader.pending_count(), 0);
    assert_eq!(loader.graph.restrictions_count(), 1);
    // Node 2 is at home in tile 7 and foreign in tile 8, but it is one node.
    assert_eq!(loader.graph.nodes_count(), 3);
}

#[test]
fn a_vertex_where_the_line_turns_back_is_kept() {
    let pts = vec![(0, 0), (0, 10), (0, 5)];
    assert_eq!(remove_collinear_lm(pts.clone()), pts);
    // What lies on the way there and back is dropped, and so are doubled vertices.
    let pts = vec![(0, 0), (0, 0), (0, 4), (0, 10), (0, 10), (0, 7), (0, 5), (3, 5)];
    let kept = remove_collinear_lm(pts);
    assert_eq!(kept, vec![(0, 0), (0, 10), (0, 5), (3, 5)]);
    assert_eq!(remove_collinear_lm(kept.clone()), kept);
}

/// Two tiles that share node 2; the turn at it leads from one into the other.
fn two_tiles() -> (Vec<u8>, Vec<u8>) {
    let (index, tables) = turn_at_two();
    let rows = vec![RestrictionRow { from_id: [11; 16], via_id: [2; 16], to_id: [12; 16], flags: 0 }];
    let (resolved, _) = resolve_restrictions(&index, &tables, &rows);
    let by_tile = group_by_tile(&resolved);
    let mut stream = TileStream::new();
    assert!(stream.push(edge_row(0, 1, 2, 7)).is_none());
    let here = stream.push(edge_row(1, 2, 3, 8)).unwrap();
    let there = stream.finish().unwrap();
    (
        flush_tile(here.tile_x, here.tile_y, &here.edges, &tables, &resolved, &by_tile),
        flush_tile(there.tile_x, there.tile_y, &there.edges, &tables, &resolved, &by_tile),
    )
}

/// What a network holds, by stable ids and in their order.
fn content(g: &Graph) -> (Vec<String>, Vec<String>, Vec<String>) {
    let name = |n: NodeId| g.node(n).unwrap().stable_id.clone();
    let road = |s: &NetworkSegment| {
        let ends = (name(s.start_node), name(s.end_node));
        format!("{} {ends:?} {:?} {} {} {}", s.stable_id, s.geometry, s.length_cm, s.frc, s.fow)
    };
    let mut places: Vec<String> =
        nodes(g).iter().map(|n| format!("{} {} {}", n.stable_id, n.lon, n.lat)).collect();
    let mut roads: Vec<String> = segments(g).iter().map(|s| road(s)).collect();
    let mut turns: Vec<String> = g
        .restrictions()
        .iter()
        .map(|r| {
            let from = &g.segment(r.from_seg).unwrap().stable_id;
            let to = &g.segment(r.to_seg).unwrap().stable_id;
            format!("{from} {} {to}", name(r.via_node))
        })
        .collect();
    places.sort();
    roads.sort();
    turns.sort();
    (places, roads, turns)
}

#[test]
fn tiles_may_be_loaded_in_either_order() {
    let (a, b) = two_tiles();
    let mut forth = TileLoader::new();
    forth.load_tile(&a).unwrap();
    forth.load_tile(&b).unwrap();
    let mut back = TileLoader::new();
    back.load_tile(&b).unwrap();
    back.load_tile(&a).unwrap();
    let (places, roads, turns) = content(&forth.graph);
    assert_eq!(content(&back.graph), (places.clone(), roads.clone(), turns.clone()));
    assert_eq!((places.len(), roads.len()), (3, 2));
    assert_eq!(turns, vec!["edge-0 node-2 edge-1"]);
    assert_eq!((forth.pending_count(), back.pending_count()), (0, 0));
}

#[test]
fn a_tile_that_is_loaded_again_later_adds_nothing() {
    let (a, b) = two_tiles();
    let mut loader = TileLoader::new();
    let first = loader.load_tile(&a).unwrap();
    loader.load_tile(&b).unwrap();
    assert!(loader.load_tile(b"no tile").is_err());
    assert_eq!(loader.load_tile(&a).unwrap(), first);
    assert_eq!((loader.graph.nodes_count(), loader.graph.segments_count()), (3, 2));
}

#[test]
fn written_edges_are_the_network_that_is_loaded() {
    let mut tables = NodeTables::new();
    for id in [1, 2, 3] {
        tables.add(node_row(id, 7));
    }
    let mut edges = vec![
        make_edge(0, "e0", [1; 16], [2; 16]),
        make_edge(1, "e1", [3; 16], [2; 16]),
        make_edge(2, "e2", [2; 16], [2; 16]),
    ];
    edges[1].direction = 1;
    edges[2].direction = 2;
    edges[2].geom = vec![(5, 6), (-7, 8), (9, -10)];
    edges[2].frc = 7;
    edges[2].fow = 0;
    let (order, index) = compute_tile_nodes_lm(&edges);
    let payload = build_lm_tile_payload(&edges, &order, &index, &tables, 7, 0, &[], &[]);
    let mut loader = TileLoader::new();
    let (ns, ss) = loader.load_tile(&payload).unwrap();
    assert_eq!((ns.len(), ss.len()), (order.len(), edges.len()));
    let g = &loader.graph;
    for (i, e) in edges.iter().enumerate() {
        let s = g.segment(ss[i]).unwrap();
        assert_eq!(s.stable_id, e.stable_id);
        assert_eq!((s.frc, s.fow, s.length_cm), (e.frc, e.fow, e.length_cm));
        assert_eq!(s.geometry, e.geom);
        let direction = [Direction::Both, Direction::Forward, Direction::Backward];
        assert_eq!(s.direction, direction[usize::from(e.direction)]);
        let ends = (&g.node(s.start_node).unwrap().stable_id, &g.node(s.end_node).unwrap().stable_id);
        let name = |id: [u8; 16]| format!("node-{}", id[0]);
        assert_eq!(ends, (&name(e.start_id), &name(e.end_id)));
    }
    for (j, id) in order.iter().enumerate() {
        let n = g.node(ns[j]).unwrap();
        assert_eq!((n.lon, n.lat), (i32::from(id[0]), 0));
        assert_eq!(n.stable_id, format!("node-{}", id[0]));
    }
}
