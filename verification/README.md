# openlrlens

Road networks for OpenLR: reading and writing binary road tiles, building archives of
them from road data, and turning clicks on a map into line location references.

The library in `src/` is written in Verus. Every function states what it returns in
`requires` and `ensures` clauses, and Verus proves that it does.

| modules | what they are about |
|---|---|
| `graph`, `path`, `oracle` | the network in memory; questions to functions that a caller hands in |
| `tile_format`, `tile_merge`, `tile_reader`, `tile_laws`, `tile_content`, `tile_error_text` | reading tiles and stitching them together |
| `tile_writer`, `tile_round_trip`, `tile_network_laws`, `lowmem_tile`, `collinear_laws`, `joined`, `pair_map` | writing tiles out of sorted rows |
| `canonical`, `generic`, `extract`, `json`, `scan` | taking in road data |
| `manifest`, `naming`, `build_course` | archives, their names and manifests, and builds in parts |
| `waypoint`, `route`, `anchors` | from clicks to routes |
| `expansion`, `virtual_split`, `line`, `diagnose`, `encode_error` | from routes to location references |
| `bytes`, `text` | integers in bytes, text, decimal numbers |

## Units

The library computes in whole numbers. Coordinates are in units of 1e-7 degree, lengths and
offsets in centimetres, distances between points in micrometres, and angles in millionths
of a degree.

## Functions that a caller hands in

Path search, projection onto a road, turn angles and the like work in floating point. Where
the library needs one, it takes a function. The contracts say most where that function is
settled, that is, where it gives one answer to each question.

## Around the library

`app/` reads and writes files and the scratch database, shows progress, and turns the
library's types into those that are written as JSON. Measures on the globe and the archive
format come in through the traits in `app/geodesy.rs`.

`tests/` runs the library.
