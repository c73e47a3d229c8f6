use openlrlens::build_course::{
    canonical_release, is_archive_file, osm_release, part_slug, vehicular_endpoints, AdaptedRoad,
    Build, BuildAction, Connector,
};
use openlrlens::manifest::{labelled_manifest, lm_manifest, top_manifest};
use openlrlens::naming::{
    archive_filename, double_quotes, is_gzip_file, is_road_file, memory_limit_mb,
};
use openlrlens::tile_format::TileReadError;

#[test]
fn manifests_are_laid_out_as_json() {
    let text = top_manifest("a.pmtiles", "2024-01", "nz", 12).unwrap();
    assert_eq!(
        text,
        "{\n  \"archive\": \"a.pmtiles\",\n  \"extent\": \"nz\",\n  \"release\": \"2024-01\",\n  \"tile_zoom\": 12\n}"
    );
    let text = lm_manifest("a.pmtiles", "r", "nz", 9, 1_700_000_000).unwrap();
    let v: serde_json::Value = serde_json::from_str(&text).unwrap();
    assert_eq!(v["built_at"], "1700000000Z");
    assert_eq!(v["tile_zoom"], 9);
    assert_eq!(v["archive"], "a.pmtiles");
}

#[test]
fn a_label_is_added_to_a_manifest() {
    let text = top_manifest("a.pmtiles", "r", "nz", 12).unwrap();
    let labelled = labelled_manifest(&text, "Way \"id\"").unwrap();
    let v: serde_json::Value = serde_json::from_str(&labelled).unwrap();
    assert_eq!(v["external_id_label"], "Way \"id\"");
    assert_eq!(v["release"], "r");
    let again = labelled_manifest(&labelled, "other").unwrap();
    let v: serde_json::Value = serde_json::from_str(&again).unwrap();
    assert_eq!(v["external_id_label"], "other");
    // Numbers of every kind stay as they are.
    let odd = labelled_manifest("{\"a\": 18446744073709551615, \"b\": 1.5, \"c\": -3}", "x").unwrap();
    assert!(odd.contains("18446744073709551615") && odd.contains("1.5") && odd.contains("-3"));
    assert!(labelled_manifest(&text, "").is_none());
    assert!(labelled_manifest("[1]", "x").is_none());
    assert!(labelled_manifest("{", "x").is_none());
}

#[test]
fn names_of_files() {
    assert_eq!(archive_filename("nz", "2024.01.1"), "openlrlens-nz-2024-01-1.pmtiles");
    assert_eq!(archive_filename("test", "generic"), "openlrlens-test-generic.pmtiles");
    assert_eq!(double_quotes("it's"), "it''s");
    assert!(is_road_file("Roads.GeoJSONL.gz") && is_road_file("a.geojson"));
    assert!(!is_road_file("a.json") && is_gzip_file("a.GZ") && !is_gzip_file("a.gzip"));
    assert_eq!(memory_limit_mb(None, 8000), 8000);
    assert_eq!(memory_limit_mb(Some(100), 8000), 1024);
    assert_eq!(osm_release("new-zealand-latest.osm"), "new-zealand-latest");
    assert_eq!(osm_release("a.osm.osm"), "a");
    assert_eq!(osm_release("plain"), "plain");
    assert_eq!(osm_release(".osm"), "");
    assert_eq!(canonical_release(""), "canonical");
    assert_eq!(canonical_release("x"), "x");
    assert!(is_archive_file("a.pmtiles"));
    assert!(!is_archive_file(".pmtiles") && !is_archive_file("a.pmtiles.tmp"));
    assert_eq!(part_slug(7), "part-0007");
    assert_eq!(part_slug(42), "part-0042");
    assert_eq!(part_slug(420), "part-0420");
    assert_eq!(part_slug(12345), "part-12345");
}

#[test]
fn a_build_in_one_part_is_whole() {
    let mut b = Build::new(1);
    assert!(matches!(b.action(), BuildAction::Whole));
    b.advance(None);
    assert!(matches!(b.action(), BuildAction::Finished));
    b.advance(None);
    assert!(matches!(b.action(), BuildAction::Finished));
}

#[test]
fn a_build_in_parts_merges_what_they_left() {
    let mut b = Build::new(3);
    let left = [Some("p0".to_string()), None, Some("p2".to_string())];
    for (i, a) in left.into_iter().enumerate() {
        match b.action() {
            BuildAction::Part { index, slug } => {
                assert_eq!(index, i);
                assert_eq!(slug, format!("part-{i:04}"));
            }
            other => panic!("{other:?}"),
        }
        b.advance(a);
    }
    match b.action() {
        BuildAction::Merge { archives } => assert_eq!(archives, vec!["p0", "p2"]),
        other => panic!("{other:?}"),
    }
    b.advance(None);
    assert!(matches!(b.action(), BuildAction::WriteManifest));
    b.advance(None);
    assert!(matches!(b.action(), BuildAction::RemoveParts));
    b.advance(None);
    assert!(matches!(b.action(), BuildAction::Finished));
}

#[test]
fn only_ends_of_vehicular_roads_count() {
    let c = |id: &str, at_end: bool| Connector { connector_id: id.to_string(), at_end };
    let roads = vec![
        AdaptedRoad { vehicular: true, connectors: vec![c("a", true), c("b", false), c("c", true)] },
        AdaptedRoad { vehicular: false, connectors: vec![c("d", true), c("b", true)] },
    ];
    let ids = vehicular_endpoints(&roads);
    assert!(ids.contains("a") && ids.contains("c"));
    assert!(!ids.contains("b") && !ids.contains("d"));
}

#[test]
fn errors_of_tiles_in_words() {
    let m = |e: TileReadError| e.message();
    assert_eq!(m(TileReadError::BadMagic([79, 76, 82, 88])), "bad magic: expected OLRL, got [79, 76, 82, 88]");
    assert_eq!(m(TileReadError::UnsupportedVersion(2)), "unsupported tile version 2 (expected 3)");
    assert_eq!(
        m(TileReadError::TooShort { need: 40, have: 7 }),
        "tile payload too short: need at least 40 bytes, have 7"
    );
    assert_eq!(
        m(TileReadError::GeomOutOfRange { offset: 1, len: 2, pool: 3 }),
        "geometry index out of range: offset 1 + len 2 > pool size 3"
    );
    assert_eq!(
        m(TileReadError::GeomTooShort { index: 4, len: 1 }),
        "segment 4 has 1 geometry vertices (minimum 2)"
    );
    assert_eq!(m(TileReadError::NodeIndexOob(10)), "local node index 10 out of range");
    assert_eq!(m(TileReadError::SegIndexOob(11)), "local segment index 11 out of range");
    assert_eq!(
        m(TileReadError::PoolOutOfRange { offset: 5, len: 6, pool: 7 }),
        "string pool reference out of range: offset 5 + len 6 > pool size 7"
    );
    assert_eq!(m(TileReadError::InvalidUtf8), "string pool entry is not valid UTF-8");
}
