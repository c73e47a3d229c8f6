use std::collections::HashMap;

use openlrlens::generic::{
    map_flowdir, node_id_bytes, parse_line, read_restriction, segment_id_bytes, CsvError, CsvLine,
    EdgeBatch, LineError, RoadLine, RoadReader, TilePlacement,
};
use openlrlens::json::JsonNumber;
use openlrlens::tile_writer::blob_to_geom;

fn double(n: JsonNumber) -> f64 {
    match n {
        JsonNumber::Whole(i) => i as f64,
        JsonNumber::Natural(u) => u as f64,
        JsonNumber::Double(bits) => f64::from_bits(bits.unwrap()),
    }
}

fn grid(n: JsonNumber) -> i32 {
    (double(n) * 1e7).round() as i32
}

/// A rough length: degrees of longitude and latitude alike, 111 km each.
fn length(pts: &[(JsonNumber, JsonNumber)]) -> u32 {
    let cm: f64 = pts
        .windows(2)
        .map(|w| {
            let dx = double(w[1].0) - double(w[0].0);
            let dy = double(w[1].1) - double(w[0].1);
            (dx * dx + dy * dy).sqrt() * 11_100_000.0
        })
        .sum();
    cm.round() as u32
}

fn parse(line: &str, ends: &mut HashMap<i64, i64>) -> Result<Option<EdgeBatch>, LineError> {
    parse_line(line, ends, length, grid)
}

// ── ID encoding ───────────────────────────────────────────────────────────────

#[test]
fn segment_and_node_id_bytes_are_disjoint() {
    // segment_id_bytes puts the integer in bytes 0..8; node_id_bytes in 8..16: a segment
    // key and a node key with the same numeric value must never collide.
    let same_numeric = 42i64;
    assert_ne!(segment_id_bytes(same_numeric), node_id_bytes(same_numeric));
    assert_eq!(&segment_id_bytes(same_numeric)[8..16], &[0u8; 8]);
    assert_eq!(&node_id_bytes(same_numeric)[0..8], &[0u8; 8]);
}

#[test]
fn ids_are_little_endian_twos_complement() {
    assert_eq!(&segment_id_bytes(0x0102)[0..8], &[2, 1, 0, 0, 0, 0, 0, 0]);
    assert_eq!(&node_id_bytes(-1)[8..16], &[0xff; 8]);
    assert_eq!(segment_id_bytes(0), node_id_bytes(0));
}

#[test]
fn map_flowdir_matches_documented_convention() {
    assert_eq!(map_flowdir(1), 1); // both
    assert_eq!(map_flowdir(2), 2); // backward
    assert_eq!(map_flowdir(3), 3); // forward
    assert_eq!(map_flowdir(0), 1); // unknown -> both
    assert_eq!(map_flowdir(99), 1); // unknown -> both
}

// ── GeoJSONL line parsing ─────────────────────────────────────────────────────

#[test]
fn parse_line_accepts_flat_format() {
    let mut seg_to_to_int = HashMap::new();
    let line = r#"{"id":1,"frc":3,"fow":3,"flowdir":1,"from_int":100,"to_int":101,"geometry":{"type":"LineString","coordinates":[[4.90,51.40],[4.91,51.41]]}}"#;
    let edge = parse(line, &mut seg_to_to_int).unwrap().expect("valid line must parse");
    assert_eq!(edge.frc, 3);
    assert_eq!(edge.fow, 3);
    assert_eq!(edge.direction, 1);
    assert_eq!(edge.start_id, node_id_bytes(100));
    assert_eq!(edge.end_id, node_id_bytes(101));
    assert_eq!(edge.parent_id, segment_id_bytes(1));
    assert_eq!(seg_to_to_int.get(&1), Some(&101));
}

#[test]
fn parse_line_accepts_geojson_feature_format() {
    let mut seg_to_to_int = HashMap::new();
    let line = r#"{"type":"Feature","properties":{"id":2,"frc":4,"fow":2,"flowdir":2,"from_int":5,"to_int":6},"geometry":{"type":"LineString","coordinates":[[0,0],[1,1]]}}"#;
    let edge = parse(line, &mut seg_to_to_int).unwrap().expect("valid Feature must parse");
    assert_eq!(edge.frc, 4);
    assert_eq!(edge.direction, 2); // backward
}

#[test]
fn parse_line_clamps_out_of_range_frc_fow() {
    let mut seg_to_to_int = HashMap::new();
    let line = r#"{"id":1,"frc":99,"fow":-5,"flowdir":1,"from_int":1,"to_int":2,"geometry":{"type":"LineString","coordinates":[[0,0],[1,1]]}}"#;
    let edge = parse(line, &mut seg_to_to_int).unwrap().unwrap();
    assert_eq!(edge.frc, 7, "frc must clamp to the max valid value, not silently overflow u8");
    assert_eq!(edge.fow, 0, "fow must clamp to the min valid value");
}

#[test]
fn parse_line_rejects_degenerate_geometry() {
    let mut seg_to_to_int = HashMap::new();
    let line = r#"{"id":1,"frc":3,"fow":3,"flowdir":1,"from_int":1,"to_int":2,"geometry":{"type":"LineString","coordinates":[[0,0]]}}"#;
    assert!(parse(line, &mut seg_to_to_int).unwrap().is_none(), "a single-point geometry must be skipped, not error");
}

#[test]
fn parse_line_errors_on_missing_required_field() {
    let mut seg_to_to_int = HashMap::new();
    let line = r#"{"id":1,"frc":3,"fow":3,"flowdir":1,"from_int":1,"geometry":{"type":"LineString","coordinates":[[0,0],[1,1]]}}"#;
    assert!(parse(line, &mut seg_to_to_int).is_err(), "a missing required field (to_int) must be a hard error, not silently defaulted");
}

#[test]
fn parse_line_gives_nothing_for_a_blank_line() {
    for line in ["", "   ", " \t\r\n", "\u{a0}"] {
        let mut ends = HashMap::new();
        assert!(parse(line, &mut ends).unwrap().is_none());
        assert!(ends.is_empty());
    }
}

#[test]
fn parse_line_errors_on_invalid_json() {
    let mut seg_to_to_int = HashMap::new();
    assert!(parse("not json at all", &mut seg_to_to_int).is_err());
}

#[test]
fn parse_line_puts_the_line_on_the_grid() {
    let mut ends = HashMap::new();
    let line = r#"{"id":1,"frc":3,"fow":3,"flowdir":1,"from_int":1,"to_int":2,"geometry":{"coordinates":[[0,0],[0.5,0],[1,0],[1,1]]}}"#;
    let e = parse(line, &mut ends).unwrap().unwrap();
    assert_eq!(e.geom, vec![(0, 0), (10_000_000, 0), (10_000_000, 10_000_000)]);
    assert_eq!(e.length_cm, 22_200_000);
}

fn refused(line: &str) -> LineError {
    parse(line, &mut HashMap::new()).unwrap_err()
}

#[test]
fn parse_line_tells_what_is_missing() {
    assert_eq!(refused("{"), LineError::NotJson);
    assert_eq!(refused("[]"), LineError::MissingGeometry);
    assert_eq!(refused(r#"{"geometry":{}}"#), LineError::MissingId);
    assert_eq!(refused(r#"{"geometry":{},"id":1.5}"#), LineError::MissingId);
    assert_eq!(refused(r#"{"geometry":{},"id":18446744073709551615}"#), LineError::MissingId);
    assert_eq!(refused(r#"{"geometry":{},"id":1}"#), LineError::MissingFrc);
    assert_eq!(refused(r#"{"geometry":{},"id":1,"frc":1}"#), LineError::MissingFow);
    assert_eq!(refused(r#"{"geometry":{},"id":1,"frc":1,"fow":1}"#), LineError::MissingFlowdir);
    let head = r#""id":1,"frc":1,"fow":1,"flowdir":1"#;
    assert_eq!(refused(&format!(r#"{{{head},"geometry":{{}}}}"#)), LineError::MissingFromInt);
    let head = format!(r#"{head},"from_int":1"#);
    assert_eq!(refused(&format!(r#"{{{head},"geometry":{{}}}}"#)), LineError::MissingToInt);
    let head = format!(r#"{head},"to_int":1"#);
    assert_eq!(refused(&format!(r#"{{{head},"geometry":{{}}}}"#)), LineError::MissingCoordinates);
    let with = |c: &str| format!(r#"{{{head},"geometry":{{"coordinates":{c}}}}}"#);
    assert_eq!(refused(&with("[[0,0],7]")), LineError::NotAPoint(1));
    assert_eq!(refused(&with("[[0,0],[]]")), LineError::MissingLon(1));
    assert_eq!(refused(&with(r#"[["a",0],[1,1]]"#)), LineError::MissingLon(0));
    assert_eq!(refused(&with("[[0,0],[1]]")), LineError::MissingLat(1));
}

// ── Reading files ─────────────────────────────────────────────────────────────

fn place(stable_id: &str, tile: u64) -> TilePlacement {
    TilePlacement { stable_id: stable_id.to_string(), tile: (tile as u32, 0, tile) }
}

#[test]
fn roads_and_restrictions_are_read_line_by_line() {
    let mut r = RoadReader::new();
    assert!(matches!(r.read_line("   \t", length, grid), RoadLine::Blank));
    assert!(matches!(r.read_line("nonsense", length, grid), RoadLine::Refused(LineError::NotJson)));
    let degenerate = r#"{"id":9,"frc":3,"fow":3,"flowdir":1,"from_int":1,"to_int":2,"geometry":{"coordinates":[]}}"#;
    assert!(matches!(r.read_line(degenerate, length, grid), RoadLine::Degenerate));
    let road = r#"  {"id":1,"frc":3,"fow":3,"flowdir":3,"from_int":100,"to_int":101,"geometry":{"coordinates":[[0,0],[1,0]]}}  "#;
    let batch = match r.read_line(road, length, grid) {
        RoadLine::Road(b) => b,
        other => panic!("{other:?}"),
    };
    let rows = r.store_road(batch, "1".to_string(), place("100", 4), place("101", 5));
    assert_eq!(r.edge_count(), 1);
    assert_eq!(rows.nodes.iter().map(|n| n.stable_id.as_str()).collect::<Vec<_>>(), vec!["100", "101"]);
    assert_eq!(rows.edges.iter().map(|e| e.tile_id).collect::<Vec<_>>(), vec![4, 5]);
    assert_eq!(blob_to_geom(&rows.edges[0].geom_blob), vec![(0, 0), (10_000_000, 0)]);
    assert_eq!(rows.edges[0].direction, 3);

    let lines: Vec<String> =
        ["# from, to", "", "1, 2", " 1 , 55 , 3 ", "8, 2", "1,2,3,4"].iter().map(|s| s.to_string()).collect();
    let turns = r.read_restrictions(&lines).unwrap();
    assert_eq!(turns.len(), 2);
    assert_eq!(turns[0].from_id, segment_id_bytes(1));
    assert_eq!(turns[0].via_id, node_id_bytes(101));
    assert_eq!(turns[0].to_id, segment_id_bytes(2));
    assert_eq!(turns[1].via_id, node_id_bytes(55));
    let bad: Vec<String> = ["1,2", "1,x"].iter().map(|s| s.to_string()).collect();
    let e = r.read_restrictions(&bad).unwrap_err();
    assert_eq!((e.line, e.error), (1, CsvError::BadTo));
}

#[test]
fn restriction_lines_are_told_apart() {
    let mut ends = HashMap::new();
    ends.insert(1, 101);
    assert_eq!(read_restriction("1,2", &ends).unwrap(), CsvLine::Restriction(1, 101, 2));
    assert_eq!(read_restriction("7,2", &ends).unwrap(), CsvLine::UnknownVia(7));
    assert_eq!(read_restriction("1", &ends).unwrap(), CsvLine::WrongColumns);
    assert_eq!(read_restriction("#1,2", &ends).unwrap(), CsvLine::Nothing);
    assert_eq!(read_restriction("+1,-2", &ends).unwrap(), CsvLine::Restriction(1, 101, -2));
    assert_eq!(read_restriction("a,2", &ends).unwrap_err(), CsvError::BadFrom);
    assert_eq!(read_restriction("1,b,2", &ends).unwrap_err(), CsvError::BadVia);
    assert_eq!(read_restriction("9223372036854775808,1,2", &ends).unwrap_err(), CsvError::BadFrom);
}
