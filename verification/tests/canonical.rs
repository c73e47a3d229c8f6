use openlrlens::canonical::{
    map_direction, map_heading, parse_wkt_linestring, restriction_flags, CanonicalEdges,
    CanonicalError, CanonicalRow, GridLine, KeyRegistry, WktError, HEADING_ANY, HEADING_BACKWARD,
    HEADING_FORWARD,
};
use openlrlens::tile_writer::blob_to_geom;

fn number(s: &str) -> Option<f64> {
    s.parse::<f64>().ok()
}

#[test]
fn parses_simple_linestring() {
    let pts = parse_wkt_linestring("LINESTRING (4.9 51.4, 4.91 51.41)", number).unwrap();
    assert_eq!(pts, vec![(4.9, 51.4), (4.91, 51.41)]);
}

#[test]
fn parses_linestring_with_many_points_and_negatives() {
    let pts = parse_wkt_linestring("LINESTRING (-4.9 -51.4, 0 0, 4.91 51.41)", number).unwrap();
    assert_eq!(pts, vec![(-4.9, -51.4), (0.0, 0.0), (4.91, 51.41)]);
}

#[test]
fn rejects_non_linestring_wkt() {
    assert!(parse_wkt_linestring("POINT (4.9 51.4)", number).is_err());
    assert!(parse_wkt_linestring("not wkt at all", number).is_err());
    assert!(parse_wkt_linestring("LINESTRING (4.9)", number).is_err());
}

#[test]
fn direction_mapping_matches_pack_attrs_convention() {
    // 0=Both 1=Forward 2=Backward
    assert_eq!(map_direction("both").unwrap(), 0);
    assert_eq!(map_direction("fwd").unwrap(), 1);
    assert_eq!(map_direction("rev").unwrap(), 2);
    assert!(map_direction("forward").is_err(), "old pre-schema-update vocabulary must not silently work");
}

#[test]
fn heading_mapping_matches_restriction_flag_bits() {
    assert_eq!(map_heading("both").unwrap(), HEADING_ANY);
    assert_eq!(map_heading("fwd").unwrap(), HEADING_FORWARD);
    assert_eq!(map_heading("rev").unwrap(), HEADING_BACKWARD);
    assert!(map_heading("any").is_err(), "the dropped 'any' vocabulary must not silently work");
}

#[test]
fn key_registry_allows_repeated_lookups_of_the_same_id() {
    let mut reg = KeyRegistry::default();
    let key = [1u8; 16];
    reg.check(key, "same-id").unwrap();
    reg.check(key, "same-id").unwrap();
    reg.check(key, "same-id").unwrap();
}

#[test]
fn key_registry_hard_errors_on_collision() {
    // Two different ids must never be allowed to share one internal key.
    let mut reg = KeyRegistry::default();
    let key = [7u8; 16];
    reg.check(key, "id-a").unwrap();
    let err = reg.check(key, "id-b");
    assert!(err.is_err(), "two different producer ids must never silently share a dedup key");
}

#[test]
fn a_collision_names_both_ids_and_the_key() {
    let mut reg = KeyRegistry::new();
    let mut key = [0u8; 16];
    key[0] = 0xab;
    key[15] = 0x0f;
    reg.check(key, "id-a").unwrap();
    let c = reg.check(key, "id-b").unwrap_err();
    assert_eq!((c.existing.as_str(), c.id.as_str()), ("id-a", "id-b"));
    assert_eq!(c.key, "ab00000000000000000000000000000f");
    // The first id keeps the key.
    assert!(reg.check(key, "id-a").is_ok());
}

#[test]
fn headings_become_flag_bits() {
    assert_eq!(restriction_flags("both", "both").unwrap(), 0);
    assert_eq!(restriction_flags("fwd", "rev").unwrap(), 1 + 4 * 2);
    assert!(restriction_flags("fwd", "any").is_err());
    assert!(restriction_flags("any", "fwd").is_err());
}

#[test]
fn wkt_errors_tell_what_is_wrong() {
    let spaced = parse_wkt_linestring("  LINESTRING(1 2,3 4)  ", number).unwrap();
    assert_eq!(spaced, vec![(1.0, 2.0), (3.0, 4.0)]);
    let e = parse_wkt_linestring("LINESTRING (1 2, x 4)", number).unwrap_err();
    assert!(!matches!(e, WktError::NotALinestring), "{e:?}");
    let e = parse_wkt_linestring("POINT (1 2)", number).unwrap_err();
    assert!(matches!(e, WktError::NotALinestring), "{e:?}");
}

fn row(id: &str, key: u8, geometry: &str, direction: &str) -> CanonicalRow {
    CanonicalRow {
        id: id.to_string(),
        geometry: geometry.to_string(),
        frc: 3,
        fow: 2,
        direction: direction.to_string(),
        start_node_id: "n1".to_string(),
        end_node_id: "n2".to_string(),
        parent_key: [key; 16],
        start_key: [101; 16],
        end_key: [102; 16],
    }
}

fn line(tiles: (u64, u64)) -> GridLine {
    GridLine {
        points: vec![(0, 0), (5, 0), (10, 0)],
        length_cm: 1234,
        start_tile: (tiles.0 as u32, 1, tiles.0),
        end_tile: (tiles.1 as u32, 1, tiles.1),
    }
}

#[test]
fn a_row_is_checked_and_stored() {
    let mut c = CanonicalEdges::new();
    let r = row("e1", 1, "LINESTRING (0 0, 1 0)", "rev");
    let (direction, pts) = c.check_row(&r, number).unwrap();
    assert_eq!(direction, 2);
    assert_eq!(pts, vec![(0.0, 0.0), (1.0, 0.0)]);
    let rows = c.store_row(r, direction, line((7, 8))).unwrap();
    assert_eq!(c.edge_count(), 1);
    assert_eq!(rows.nodes.len(), 2);
    // One row in the tile of either end.
    assert_eq!(rows.edges.len(), 2);
    assert_eq!((rows.edges[0].tile_id, rows.edges[1].tile_id), (7, 8));
    assert_eq!(blob_to_geom(&rows.edges[0].geom_blob), vec![(0, 0), (10, 0)]);
    assert_eq!(rows.edges[0].length_cm, 1234);
    // The nodes are known now.
    let r = row("e2", 2, "LINESTRING (0 0, 1 0)", "both");
    let (direction, _) = c.check_row(&r, number).unwrap();
    let rows = c.store_row(r, direction, line((7, 7))).unwrap();
    assert!(rows.nodes.is_empty());
    assert_eq!(rows.edges.len(), 1);
    assert_eq!(rows.edges[0].edge_idx, 1);
}

#[test]
fn bad_rows_are_refused() {
    let mut c = CanonicalEdges::new();
    assert!(c.check_row(&row("e1", 1, "LINESTRING (0 0, 1 0)", "fwd"), number).is_ok());
    let e = c.check_row(&row("other", 1, "LINESTRING (0 0, 1 0)", "fwd"), number).unwrap_err();
    match e {
        CanonicalError::Collision(k) => assert_eq!((k.existing.as_str(), k.id.as_str()), ("e1", "other")),
        other => panic!("{other:?}"),
    }
    let e = c.check_row(&row("e2", 2, "LINESTRING (0 0, 1 0)", "forward"), number).unwrap_err();
    assert!(matches!(e, CanonicalError::BadDirection(_)), "{e:?}");
    let e = c.check_row(&row("e3", 3, "POINT (0 0)", "fwd"), number).unwrap_err();
    assert!(matches!(e, CanonicalError::BadGeometry(_)), "{e:?}");
    let e = c.check_row(&row("e4", 4, "LINESTRING (0 0)", "fwd"), number).unwrap_err();
    assert!(matches!(e, CanonicalError::TooFewPoints), "{e:?}");
    let mut short = line((7, 8));
    short.points.truncate(1);
    let e = c.store_row(row("e5", 5, "LINESTRING (0 0, 1 0)", "fwd"), 1, short).unwrap_err();
    assert!(matches!(e, CanonicalError::Degenerate), "{e:?}");
    assert_eq!(c.edge_count(), 0);
}

#[test]
fn wkt_errors_name_the_point() {
    let e = |s: &str| parse_wkt_linestring(s, number).unwrap_err();
    assert_eq!(e("LINESTRING (1 2, x 4)"), WktError::BadLongitude(1));
    assert_eq!(e("LINESTRING (1 2, 3 y)"), WktError::BadLatitude(1));
    assert_eq!(e("LINESTRING (1)"), WktError::MissingLatitude(0));
    assert_eq!(e("LINESTRING (1 2, )"), WktError::MissingLongitude(1));
}
