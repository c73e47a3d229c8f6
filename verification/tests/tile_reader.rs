use openlrlens::graph::{Direction, Graph, NetworkNode, NetworkSegment, NodeId};
use openlrlens::tile_format::TileReadError;
use openlrlens::tile_reader::{parse_tile, TileLoader};

fn segments(g: &Graph) -> Vec<&NetworkSegment> {
    g.segment_ids().iter().map(|id| g.segment(*id).unwrap()).collect()
}

fn nodes(g: &Graph) -> Vec<&NetworkNode> {
    (0..1000u32).filter_map(|i| g.node(NodeId(i))).collect()
}

/// Build a minimal v3 tile payload (2 segments, 3 nodes) for testing.
fn minimal_tile() -> Vec<u8> {
    // We use pipeline tile builder helpers directly by constructing the binary manually.
    let seg_count:   u32 = 2;
    let node_count:  u32 = 3;
    let restr_count: u32 = 0;
    let geom_count:  u32 = 4;
    let xrestr_count:u32 = 0;

    // String pool: seg0_id, seg1_id, node0_id, node1_id, node2_id
    let seg0_id  = "seg-0";
    let seg1_id  = "seg-1";
    let node0_id = "n-0";
    let node1_id = "n-1";
    let node2_id = "n-2";

    let mut pool: Vec<u8> = Vec::new();
    let seg0_off  = pool.len(); pool.extend_from_slice(seg0_id.as_bytes());
    let seg1_off  = pool.len(); pool.extend_from_slice(seg1_id.as_bytes());
    let nd0_off   = pool.len(); pool.extend_from_slice(node0_id.as_bytes());
    let nd1_off   = pool.len(); pool.extend_from_slice(node1_id.as_bytes());
    let nd2_off   = pool.len(); pool.extend_from_slice(node2_id.as_bytes());
    let pool_len  = pool.len() as u32;

    let mut buf: Vec<u8> = Vec::new();

    // Header (40 bytes)
    buf.extend_from_slice(b"OLRL");
    buf.push(3);                        // version 3
    buf.push(0);                        // flags
    buf.extend_from_slice(&[0u8; 2]);   // _pad
    buf.extend_from_slice(&seg_count.to_le_bytes());
    buf.extend_from_slice(&node_count.to_le_bytes());
    buf.extend_from_slice(&restr_count.to_le_bytes());
    buf.extend_from_slice(&geom_count.to_le_bytes());
    buf.extend_from_slice(&xrestr_count.to_le_bytes());
    buf.extend_from_slice(&pool_len.to_le_bytes());
    buf.extend_from_slice(&[0u8; 8]);   // _reserved
    assert_eq!(buf.len(), 40);

    // Segment array (2 × 32 bytes)
    let attrs0: u8 = 3 | (3 << 3) | (0 << 6); // frc=3, fow=3, Both
    let attrs1: u8 = 3 | (3 << 3) | (1 << 6); // frc=3, fow=3, Forward
    for (start, end, geom_off, geom_len_v, attrs, sid_off, sid_len) in [
        (0u32, 1u32, 0u32, 2u16, attrs0, seg0_off as u32, seg0_id.len() as u8),
        (1u32, 2u32, 2u32, 2u16, attrs1, seg1_off as u32, seg1_id.len() as u8),
    ] {
        let mut s = [0u8; 32];
        s[0..4].copy_from_slice(&start.to_le_bytes());
        s[4..8].copy_from_slice(&end.to_le_bytes());
        s[8..12].copy_from_slice(&geom_off.to_le_bytes());
        s[12..14].copy_from_slice(&geom_len_v.to_le_bytes());
        s[14..18].copy_from_slice(&10_000u32.to_le_bytes()); // 100 m
        s[18] = attrs;
        s[20..24].copy_from_slice(&sid_off.to_le_bytes());
        s[24] = sid_len;
        buf.extend_from_slice(&s);
    }

    // Geometry pool (4 × 8 bytes)
    let lon0: i32 = 1_740_000_000;
    let lat0: i32 = -360_000_000;
    for lon in [lon0, lon0 + 10_000, lon0 + 10_000, lon0 + 20_000] {
        buf.extend_from_slice(&lon.to_le_bytes());
        buf.extend_from_slice(&lat0.to_le_bytes());
    }

    // Node table (3 × 28 bytes)
    for (lon, sid_off, sid_len) in [
        (lon0,          nd0_off as u32, node0_id.len() as u8),
        (lon0 + 10_000, nd1_off as u32, node1_id.len() as u8),
        (lon0 + 10_000, nd2_off as u32, node2_id.len() as u8),
    ] {
        buf.extend_from_slice(&lon.to_le_bytes());
        buf.extend_from_slice(&lat0.to_le_bytes());
        buf.extend_from_slice(&sid_off.to_le_bytes());
        buf.push(sid_len);
        buf.extend_from_slice(&[0u8; 11]); // _reserved
        buf.push(0); // flags: not boundary
        buf.extend_from_slice(&[0u8; 3]); // _pad
    }

    // No restrictions.
    // String pool
    buf.extend_from_slice(&pool);

    buf
}

#[test]
fn parse_minimal_tile() {
    let bytes = minimal_tile();
    let mut loader = TileLoader::new();
    loader.load_tile(&bytes).unwrap();
    let g = &loader.graph;
    assert_eq!(g.segments_count(), 2, "segment count");
    assert_eq!(g.nodes_count(), 3, "node count");
}

#[test]
fn segment_lengths_correct() {
    let bytes = minimal_tile();
    let mut loader = TileLoader::new();
    loader.load_tile(&bytes).unwrap();
    let lengths: std::collections::HashSet<u32> =
        segments(&loader.graph).iter().map(|s| s.length_cm / 100).collect();
    assert!(lengths.contains(&100), "100 m segment");
}

#[test]
fn direction_decoded_correctly() {
    let bytes = minimal_tile();
    let mut loader = TileLoader::new();
    loader.load_tile(&bytes).unwrap();
    let dirs: Vec<Direction> = segments(&loader.graph).iter().map(|s| s.direction).collect();
    assert!(dirs.contains(&Direction::Both));
    assert!(dirs.contains(&Direction::Forward));
}

#[test]
fn stable_ids_decoded() {
    let bytes = minimal_tile();
    let mut loader = TileLoader::new();
    loader.load_tile(&bytes).unwrap();
    let all = segments(&loader.graph);
    let ids: std::collections::HashSet<&str> = all.iter().map(|s| s.stable_id.as_str()).collect();
    assert!(ids.contains("seg-0"));
    assert!(ids.contains("seg-1"));
}

#[test]
fn bad_magic_rejected() {
    let mut bytes = minimal_tile();
    bytes[0] = b'X';
    assert!(matches!(TileLoader::new().load_tile(&bytes), Err(TileReadError::BadMagic(_))));
}

#[test]
fn wrong_version_rejected() {
    let mut bytes = minimal_tile();
    bytes[4] = 2; // old version
    assert!(matches!(TileLoader::new().load_tile(&bytes), Err(TileReadError::UnsupportedVersion(2))));
}

/// Build a minimal tile with custom node stable IDs baked into the string pool.
fn tile_with_nodes(node_ids: &[&str], boundary: &[bool]) -> Vec<u8> {
    assert_eq!(node_ids.len(), 3);

    let seg_count:   u32 = 2;
    let node_count:  u32 = 3;
    let geom_count:  u32 = 4;

    // Build string pool: 2 segment IDs + 3 node IDs
    let seg0_id = "s0";
    let seg1_id = "s1";
    let mut pool: Vec<u8> = Vec::new();
    let seg0_off = pool.len(); pool.extend_from_slice(seg0_id.as_bytes());
    let seg1_off = pool.len(); pool.extend_from_slice(seg1_id.as_bytes());
    let mut noff = Vec::new();
    for &id in node_ids {
        noff.push(pool.len() as u32);
        pool.extend_from_slice(id.as_bytes());
    }
    let pool_len = pool.len() as u32;

    let mut buf: Vec<u8> = Vec::new();
    buf.extend_from_slice(b"OLRL");
    buf.push(3); buf.push(0); buf.extend_from_slice(&[0u8; 2]);
    buf.extend_from_slice(&seg_count.to_le_bytes());
    buf.extend_from_slice(&node_count.to_le_bytes());
    buf.extend_from_slice(&0u32.to_le_bytes());
    buf.extend_from_slice(&geom_count.to_le_bytes());
    buf.extend_from_slice(&0u32.to_le_bytes());
    buf.extend_from_slice(&pool_len.to_le_bytes());
    buf.extend_from_slice(&[0u8; 8]);

    for (start, end, g_off, s_off, s_len) in [
        (0u32, 1u32, 0u32, seg0_off as u32, seg0_id.len() as u8),
        (1u32, 2u32, 2u32, seg1_off as u32, seg1_id.len() as u8),
    ] {
        let mut s = [0u8; 32];
        s[0..4].copy_from_slice(&start.to_le_bytes());
        s[4..8].copy_from_slice(&end.to_le_bytes());
        s[8..12].copy_from_slice(&g_off.to_le_bytes());
        s[12..14].copy_from_slice(&2u16.to_le_bytes());
        s[14..18].copy_from_slice(&10_000u32.to_le_bytes());
        s[18] = 3 | (3 << 3);
        s[20..24].copy_from_slice(&s_off.to_le_bytes());
        s[24] = s_len;
        buf.extend_from_slice(&s);
    }

    let lon0: i32 = 1_740_000_000;
    let lat0: i32 = -360_000_000;
    for lon in [lon0, lon0 + 10_000, lon0 + 10_000, lon0 + 20_000] {
        buf.extend_from_slice(&lon.to_le_bytes());
        buf.extend_from_slice(&lat0.to_le_bytes());
    }

    for (i, (&nid_off, &id)) in noff.iter().zip(node_ids.iter()).enumerate() {
        let lon = lon0 + (i as i32) * 10_000;
        buf.extend_from_slice(&lon.to_le_bytes());
        buf.extend_from_slice(&lat0.to_le_bytes());
        buf.extend_from_slice(&nid_off.to_le_bytes());
        buf.push(id.len() as u8);
        buf.extend_from_slice(&[0u8; 11]);
        buf.push(u8::from(boundary[i]));
        buf.extend_from_slice(&[0u8; 3]);
    }

    buf.extend_from_slice(&pool);
    buf
}

#[test]
fn boundary_nodes_stitched_across_tiles() {
    let tile1 = tile_with_nodes(&["n01", "n02", "shared"], &[false, false, true]);
    let tile2 = tile_with_nodes(&["shared", "n21", "n22"], &[true, false, false]);

    let mut loader = TileLoader::new();
    loader.load_tile(&tile1).unwrap();
    loader.load_tile(&tile2).unwrap();

    // tile1: 3 nodes; tile2 shares 1 → 5 unique
    assert_eq!(loader.graph.nodes_count(), 5, "boundary node stitched");
}

#[test]
fn home_tile_node_stitches_with_foreign_occurrence() {
    // tile1: shared node is NOT boundary (home tile)
    let tile1 = tile_with_nodes(&["n01", "n02", "shared"], &[false, false, false]);
    // tile2: shared node IS boundary (foreign tile)
    let tile2 = tile_with_nodes(&["shared", "n21", "n22"], &[true, false, false]);

    let mut loader = TileLoader::new();
    loader.load_tile(&tile1).unwrap();
    loader.load_tile(&tile2).unwrap();

    assert_eq!(loader.graph.nodes_count(), 5,
        "home-tile non-boundary node must stitch with foreign-tile boundary occurrence");

    let shared_nodes: Vec<_> = nodes(&loader.graph).into_iter()
        .filter(|n| n.stable_id == "shared").collect();
    assert_eq!(shared_nodes.len(), 1, "shared node should appear exactly once");
}

/// Cross-tile restriction test using v3 16-byte records.
#[test]
fn cross_tile_restriction_stitched() {
    let from_id  = "from-seg";
    let to_id    = "to-seg";
    let via_id   = "via-node";

    // ── Tile 1: has via-node and the cross-tile restriction ──────────────
    let seg_count:   u32 = 2;
    let node_count:  u32 = 3;
    let geom_count:  u32 = 4;
    let xrestr_count:u32 = 1;

    // Segment IDs in tile1 (local segs, not from/to)
    let seg_a = "seg-a";
    let seg_b = "seg-b";
    let nd_a  = "nd-a";
    // via node shared across tiles
    let nd_c  = "nd-c";

    let mut pool: Vec<u8> = Vec::new();
    let sa_off = pool.len() as u32; pool.extend_from_slice(seg_a.as_bytes());
    let sb_off = pool.len() as u32; pool.extend_from_slice(seg_b.as_bytes());
    let na_off = pool.len() as u32; pool.extend_from_slice(nd_a.as_bytes());
    let _via_pool_off = pool.len() as u32; pool.extend_from_slice(via_id.as_bytes());
    let nc_off = pool.len() as u32; pool.extend_from_slice(nd_c.as_bytes());
    // Cross-restriction string pool entries
    let fr_off = pool.len() as u32; pool.extend_from_slice(from_id.as_bytes());
    let to_off_v = pool.len() as u32; pool.extend_from_slice(to_id.as_bytes());
    let pool_len = pool.len() as u32;

    let mut t1: Vec<u8> = Vec::new();
    t1.extend_from_slice(b"OLRL");
    t1.push(3); t1.push(0); t1.extend_from_slice(&[0u8; 2]);
    t1.extend_from_slice(&seg_count.to_le_bytes());
    t1.extend_from_slice(&node_count.to_le_bytes());
    t1.extend_from_slice(&0u32.to_le_bytes());
    t1.extend_from_slice(&geom_count.to_le_bytes());
    t1.extend_from_slice(&xrestr_count.to_le_bytes());
    t1.extend_from_slice(&pool_len.to_le_bytes());
    t1.extend_from_slice(&[0u8; 8]);

    for (start, end, g_off, s_off, s_len) in [
        (0u32, 1u32, 0u32, sa_off, seg_a.len() as u8),
        (1u32, 2u32, 2u32, sb_off, seg_b.len() as u8),
    ] {
        let mut s = [0u8; 32];
        s[0..4].copy_from_slice(&start.to_le_bytes());
        s[4..8].copy_from_slice(&end.to_le_bytes());
        s[8..12].copy_from_slice(&g_off.to_le_bytes());
        s[12..14].copy_from_slice(&2u16.to_le_bytes());
        s[14..18].copy_from_slice(&10_000u32.to_le_bytes());
        s[18] = 3 | (3 << 3);
        s[20..24].copy_from_slice(&s_off.to_le_bytes());
        s[24] = s_len;
        t1.extend_from_slice(&s);
    }

    let lon0: i32 = 1_740_000_000;
    let lat0: i32 = -360_000_000;
    for lon in [lon0, lon0 + 10_000, lon0 + 10_000, lon0 + 20_000] {
        t1.extend_from_slice(&lon.to_le_bytes());
        t1.extend_from_slice(&lat0.to_le_bytes());
    }

    // via_id is the node at local index 1
    let via_pool_off_actual = nd_a.len() as u32 + seg_a.len() as u32 + seg_b.len() as u32;
    for (lon, nid_off, nid_len, is_b) in [
        (lon0,          na_off,              nd_a.len() as u8,   false),
        (lon0 + 10_000, via_pool_off_actual, via_id.len() as u8, true),
        (lon0 + 20_000, nc_off,              nd_c.len() as u8,   false),
    ] {
        t1.extend_from_slice(&lon.to_le_bytes());
        t1.extend_from_slice(&lat0.to_le_bytes());
        t1.extend_from_slice(&nid_off.to_le_bytes());
        t1.push(nid_len);
        t1.extend_from_slice(&[0u8; 11]);
        t1.push(u8::from(is_b));
        t1.extend_from_slice(&[0u8; 3]);
    }

    // Cross-restriction record (16 bytes): via = local node 1
    t1.extend_from_slice(&fr_off.to_le_bytes());  // from_id_offset
    t1.push(from_id.len() as u8);                 // from_id_len
    t1.extend_from_slice(&1u32.to_le_bytes());    // via_node_local = 1
    t1.extend_from_slice(&to_off_v.to_le_bytes());// to_id_offset
    t1.push(to_id.len() as u8);                   // to_id_len
    t1.push(0);                                   // flags
    t1.push(0);                                   // _pad

    t1.extend_from_slice(&pool);

    // ── Tile 2: contains from_seg and to_seg ─────────────────────────────
    let t2 = {
        let from_sid = from_id;
        let to_sid   = to_id;
        let nd_x     = "nd-x";
        let nd_y     = "nd-y";

        let mut p: Vec<u8> = Vec::new();
        let fs_off = p.len() as u32; p.extend_from_slice(from_sid.as_bytes());
        let ts_off = p.len() as u32; p.extend_from_slice(to_sid.as_bytes());
        let nx_off = p.len() as u32; p.extend_from_slice(nd_x.as_bytes());
        let via_off = p.len() as u32; p.extend_from_slice(via_id.as_bytes());
        let ny_off = p.len() as u32; p.extend_from_slice(nd_y.as_bytes());
        let p_len  = p.len() as u32;

        let mut t: Vec<u8> = Vec::new();
        t.extend_from_slice(b"OLRL");
        t.push(3); t.push(0); t.extend_from_slice(&[0u8; 2]);
        t.extend_from_slice(&2u32.to_le_bytes()); // seg
        t.extend_from_slice(&3u32.to_le_bytes()); // node
        t.extend_from_slice(&0u32.to_le_bytes()); // restr
        t.extend_from_slice(&4u32.to_le_bytes()); // geom
        t.extend_from_slice(&0u32.to_le_bytes()); // xrestr
        t.extend_from_slice(&p_len.to_le_bytes());
        t.extend_from_slice(&[0u8; 8]);

        // seg X→B (from_seg)  seg B→Y (to_seg)
        for (start, end, g_off, s_off, s_len) in [
            (0u32, 1u32, 0u32, fs_off, from_sid.len() as u8),
            (1u32, 2u32, 2u32, ts_off, to_sid.len() as u8),
        ] {
            let mut s = [0u8; 32];
            s[0..4].copy_from_slice(&start.to_le_bytes());
            s[4..8].copy_from_slice(&end.to_le_bytes());
            s[8..12].copy_from_slice(&g_off.to_le_bytes());
            s[12..14].copy_from_slice(&2u16.to_le_bytes());
            s[14..18].copy_from_slice(&10_000u32.to_le_bytes());
            s[18] = 3 | (3 << 3);
            s[20..24].copy_from_slice(&s_off.to_le_bytes());
            s[24] = s_len;
            t.extend_from_slice(&s);
        }

        let lon1: i32 = 1_750_000_000;
        for lon in [lon1, lon1 + 10_000, lon1 + 10_000, lon1 + 20_000] {
            t.extend_from_slice(&lon.to_le_bytes());
            t.extend_from_slice(&lat0.to_le_bytes());
        }

        for (lon, nid_off, nid_len, is_b) in [
            (lon1,          nx_off,  nd_x.len() as u8,   false),
            (lon1 + 10_000, via_off, via_id.len() as u8, true),
            (lon1 + 20_000, ny_off,  nd_y.len() as u8,   false),
        ] {
            t.extend_from_slice(&lon.to_le_bytes());
            t.extend_from_slice(&lat0.to_le_bytes());
            t.extend_from_slice(&nid_off.to_le_bytes());
            t.push(nid_len);
            t.extend_from_slice(&[0u8; 11]);
            t.push(u8::from(is_b));
            t.extend_from_slice(&[0u8; 3]);
        }

        t.extend_from_slice(&p);
        t
    };

    let mut loader = TileLoader::new();
    loader.load_tile(&t1).unwrap();
    assert_eq!(loader.pending_count(), 1, "restriction pending after tile 1");
    assert_eq!(loader.graph.restrictions_count(), 0);

    loader.load_tile(&t2).unwrap();
    assert_eq!(loader.pending_count(), 0, "no remaining pending restrictions");
    assert!(loader.graph.restrictions_count() > 0, "restriction stitched");
}

// ── Refused payloads ──────────────────────────────────────────────────────────

fn refused(bytes: &[u8]) -> TileReadError {
    TileLoader::new().load_tile(bytes).unwrap_err()
}

fn put_u32(bytes: &mut [u8], o: usize, v: u32) {
    bytes[o..o + 4].copy_from_slice(&v.to_le_bytes());
}

const SEGS: usize = 40;
const NODES: usize = 40 + 2 * 32 + 4 * 8;
const POOL: usize = NODES + 3 * 28;

#[test]
fn short_payloads_are_refused() {
    let whole = minimal_tile();
    assert!(matches!(refused(&[]), TileReadError::TooShort { need: 40, have: 0 }));
    assert!(matches!(refused(&whole[..39]), TileReadError::TooShort { need: 40, have: 39 }));
    let n = whole.len();
    match refused(&whole[..n - 1]) {
        TileReadError::TooShort { need, have } => assert_eq!((need, have), (n, n - 1)),
        other => panic!("{other:?}"),
    }
    // Counts whose tables would not fit in the address space are no more than too short.
    let mut huge = whole.clone();
    for o in [8, 12, 16, 20, 24, 28] {
        put_u32(&mut huge, o, u32::MAX);
    }
    assert!(matches!(refused(&huge), TileReadError::TooShort { .. }));
}

#[test]
fn records_that_point_outside_are_refused() {
    let mut b = minimal_tile();
    put_u32(&mut b, SEGS, 3);
    assert!(matches!(refused(&b), TileReadError::NodeIndexOob(3)));
    let mut b = minimal_tile();
    put_u32(&mut b, SEGS + 4, 7);
    assert!(matches!(refused(&b), TileReadError::NodeIndexOob(7)));
    let mut b = minimal_tile();
    put_u32(&mut b, SEGS + 32 + 8, 3);
    assert!(matches!(refused(&b), TileReadError::GeomOutOfRange { offset: 3, len: 2, pool: 4 }));
    let mut b = minimal_tile();
    b[SEGS + 32 + 12] = 1;
    assert!(matches!(refused(&b), TileReadError::GeomTooShort { index: 1, len: 1 }));
    let mut b = minimal_tile();
    put_u32(&mut b, SEGS + 20, 1000);
    assert!(matches!(refused(&b), TileReadError::PoolOutOfRange { offset: 1000, len: 5, .. }));
    let mut b = minimal_tile();
    b[POOL] = 0xff;
    assert!(matches!(refused(&b), TileReadError::InvalidUtf8));
}

/// The minimal tile with one more record, of a forbidden turn.
fn with_restriction(from: u32, via: u32, to: u32) -> Vec<u8> {
    let mut b = minimal_tile();
    put_u32(&mut b, 16, 1);
    let pool = b.split_off(POOL);
    for v in [from, via, to, 0] {
        b.extend_from_slice(&v.to_le_bytes());
    }
    b.extend_from_slice(&pool);
    b
}

#[test]
fn restrictions_within_a_tile_are_read() {
    let mut loader = TileLoader::new();
    loader.load_tile(&with_restriction(0, 1, 1)).unwrap();
    let ids = loader.graph.segment_ids().clone();
    let turn = loader.graph.restrictions()[0];
    assert_eq!((turn.from_seg, turn.to_seg), (ids[0], ids[1]));
    assert_eq!(loader.graph.node(turn.via_node).unwrap().stable_id, "n-1");
    assert!(matches!(refused(&with_restriction(2, 1, 1)), TileReadError::SegIndexOob(2)));
    assert!(matches!(refused(&with_restriction(0, 1, 9)), TileReadError::SegIndexOob(9)));
    assert!(matches!(refused(&with_restriction(0, 5, 1)), TileReadError::NodeIndexOob(5)));
}

#[test]
fn identifiers_may_hold_any_text() {
    let tile = tile_with_nodes(&["é-node", "節点", ""], &[false, false, false]);
    let mut loader = TileLoader::new();
    loader.load_tile(&tile).unwrap();
    let ids: Vec<&str> = nodes(&loader.graph).iter().map(|n| n.stable_id.as_str()).collect();
    assert_eq!(ids, vec!["é-node", "節点", ""]);
}

#[test]
fn tiles_remember_where_things_came_from() {
    let tile = minimal_tile();
    let mut loader = TileLoader::default();
    assert!(loader.room_for(tile.len()));
    loader.load_tile_at(12, 5, 6, &tile).unwrap();
    assert!(loader.graph.is_tile_loaded(12, 5, 6));
    assert!(!loader.graph.is_tile_loaded(12, 6, 5));
    let ids = loader.graph.segment_ids().clone();
    assert_eq!(loader.seg_tile(ids[1]), Some((12, 5, 6, 1)));
    let n = loader.node_tile(12, 5, 6, 2).unwrap();
    assert_eq!(loader.graph.node(n).unwrap().stable_id, "n-2");
    assert_eq!(loader.node_tile(12, 5, 6, 3), None);
    // Loading it again adds nothing.
    loader.load_tile_at(12, 5, 6, &tile).unwrap();
    assert_eq!((loader.graph.nodes_count(), loader.graph.segments_count()), (3, 2));
    // No bytes: the archive has no such tile, and nobody needs to ask again.
    loader.load_tile_at(12, 9, 9, &[]).unwrap();
    assert!(loader.graph.is_tile_loaded(12, 9, 9));
    // A payload that is refused leaves the tile unrecorded.
    assert!(loader.load_tile_at(12, 8, 8, &tile[..50]).is_err());
    assert!(!loader.graph.is_tile_loaded(12, 8, 8));
}

#[test]
fn reading_keeps_one_id_per_stable_id() {
    let mut loader = TileLoader::new();
    // Two of the three records have one stable id.
    let first = parse_tile(&tile_with_nodes(&["a", "b", "a"], &[false, true, true]), &mut loader);
    let (nodes, _) = first.unwrap();
    assert_eq!(nodes, vec![NodeId(0), NodeId(1), NodeId(0)]);
    // A known stable id keeps its node; the new one gets the next id.
    let second = parse_tile(&tile_with_nodes(&["c", "b", "a"], &[false; 3]), &mut loader);
    let (nodes, _) = second.unwrap();
    assert_eq!(nodes, vec![NodeId(2), NodeId(1), NodeId(0)]);
    assert_eq!(loader.network().nodes_count(), 3);
    assert!(loader.network().node(NodeId(1)).unwrap().is_boundary, "as first loaded");
}

#[test]
fn the_loaded_network_is_handed_out() {
    let mut loader = TileLoader::default();
    assert_eq!(loader.network().segments_count(), 0);
    let (nodes, segs) = loader.load_tile(&minimal_tile()).unwrap();
    let g = loader.network();
    assert_eq!((nodes.len(), segs.len()), (g.nodes_count(), g.segments_count()));
    assert_eq!(g.segment(segs[1]).unwrap().stable_id, "seg-1");
}
