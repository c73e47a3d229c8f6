//! Verified core of a road-network tile store and OpenLR line encoder.
pub mod anchors;
pub mod build_course;
pub mod byte_laws;
pub mod bytes;
pub mod canonical;
pub mod collinear_laws;
pub mod diagnose;
pub mod encode_error;
pub mod expansion;
pub mod extract;
pub mod flush_laws;
pub mod generic;
pub mod graph;
pub mod graph_laws;
pub mod joined;
pub mod json;
pub mod line;
pub mod line_laws;
pub mod lowmem_tile;
pub mod manifest;
pub mod naming;
pub mod oracle;
pub mod pair_map;
pub mod path;
pub mod publish_laws;
pub mod reading_laws;
pub mod record_laws;
pub mod restriction_laws;
pub mod route;
pub mod route_laws;
pub mod row_laws;
pub mod scan;
pub mod text;
pub mod text_laws;
pub mod tile_content;
pub mod tile_error_text;
pub mod tile_format;
pub mod tile_laws;
pub mod tile_merge;
pub mod tile_network_laws;
pub mod tile_reader;
pub mod tile_round_trip;
pub mod tile_writer;
pub mod virtual_split;
pub mod waypoint;
pub mod waypoint_laws;
