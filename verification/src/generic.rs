//! Ingestion of line-delimited GeoJSON roads and of turn restrictions as
//! comma-separated values.
use std::collections::HashMap;
use vstd::prelude::*;

use crate::extract::{
    edge_models, edge_rows, new_nodes, node_models, EdgeEnd, EdgeRows, Extractor, MeasuredEdge,
};
use crate::json::{int_member, json_of, member, read_json, Json, JsonModel, JsonNumber};
use crate::lowmem_tile::{
    law_collinear_removal_keeps_the_ends, remove_collinear_lm, without_collinear, RestrictionRow,
};
use crate::oracle::{
    answer, lemma_answer, lemma_list_answer, list_answer, settled, settled_on_lists,
};
use crate::scan::{
    int_of, parse_int, pieces_of, split_at_commas, split_commas, trim, trimmed,
};
use crate::text::{chars_of, text_from};
use crate::tile_writer::ElementId;

verus! {

/// The 64 bits of a number as an unsigned number.
pub open spec fn bits_of(id: i64) -> u64 {
    (id as int % 0x1_0000_0000_0000_0000) as u64
}

/// Byte `k` of a number, counted from the least significant one.
pub open spec fn byte_of(v: u64, k: int) -> u8
    decreases k,
{
    if k <= 0 {
        (v % 256) as u8
    } else {
        byte_of(v / 256, k - 1)
    }
}

/// The identifier of a road: the number in bytes 0-7, zeros in bytes 8-15.
pub open spec fn segment_id(id: i64) -> Seq<u8> {
    Seq::new(
        16,
        |k: int|
            if k < 8 {
                byte_of(bits_of(id), k)
            } else {
                0u8
            },
    )
}

/// The identifier of a junction: zeros in bytes 0-7, the number in bytes 8-15.
pub open spec fn node_id(id: i64) -> Seq<u8> {
    Seq::new(
        16,
        |k: int|
            if k < 8 {
                0u8
            } else {
                byte_of(bits_of(id), k - 8)
            },
    )
}

fn place_bytes(id: i64, at: usize) -> (b: ElementId)
    requires
        at == 0 || at == 8,
    ensures
        forall|k: int|
            0 <= k < 16 ==> #[trigger] b@[k] == if at <= k < at + 8 {
                byte_of(bits_of(id), k - at)
            } else {
                0u8
            },
{
    let mut b: ElementId = [0u8; 16];
    let bits: u64 = if id >= 0 {
        id as u64
    } else {
        (id as i128 + 0x1_0000_0000_0000_0000) as u64
    };
    let mut v: u64 = bits;
    let mut i: usize = 0;
    while i < 8
        invariant
            i <= 8,
            at == 0 || at == 8,
            bits == bits_of(id),
            forall|j: int| 0 <= j < 8 - i ==> #[trigger] byte_of(v, j) == byte_of(bits, i + j),
            forall|k: int|
                0 <= k < 16 ==> #[trigger] b@[k] == if at <= k < at + i {
                    byte_of(bits, k - at)
                } else {
                    0u8
                },
        decreases 8 - i,
    {
        assert(byte_of(v, 0) == byte_of(bits, i as int));
        b[at + i] = (v % 256) as u8;
        let ghost before = v;
        v = v / 256;
        proof {
            assert forall|j: int| 0 <= j < 8 - (i + 1) implies #[trigger] byte_of(v, j) == byte_of(
                bits,
                i + 1 + j,
            ) by {
                assert(byte_of(before, j + 1) == byte_of(bits, i + (j + 1)));
            }
        }
        i += 1;
    }
    b
}

/// The identifier of a road.
pub fn segment_id_bytes(id: i64) -> (b: ElementId)
    ensures
        b@ == segment_id(id),
{
    let b: ElementId = place_bytes(id, 0);
    assert(b@ =~= segment_id(id));
    b
}

/// The identifier of a junction.
pub fn node_id_bytes(id: i64) -> (b: ElementId)
    ensures
        b@ == node_id(id),
{
    let b: ElementId = place_bytes(id, 8);
    assert(b@ =~= node_id(id));
    b
}

proof fn lemma_bytes_spell(v: u64)
    ensures
        v == byte_of(v, 0) + 0x100 * byte_of(v, 1) + 0x1_0000 * byte_of(v, 2) + 0x100_0000
            * byte_of(v, 3) + 0x1_0000_0000 * byte_of(v, 4) + 0x100_0000_0000 * byte_of(v, 5)
            + 0x1_0000_0000_0000 * byte_of(v, 6) + 0x100_0000_0000_0000 * byte_of(v, 7),
{
    reveal_with_fuel(byte_of, 9);
}

/// Two roads never have one identifier, nor do two junctions.
pub proof fn law_ids_are_distinct(a: i64, b: i64)
    requires
        a != b,
    ensures
        segment_id(a) != segment_id(b),
        node_id(a) != node_id(b),
{
    lemma_bytes_spell(bits_of(a));
    lemma_bytes_spell(bits_of(b));
    assert(bits_of(a) != bits_of(b));
    assert(forall|k: int|
        0 <= k < 8 ==> #[trigger] segment_id(a)[k] == byte_of(bits_of(a), k) && node_id(a)[k + 8]
            == byte_of(bits_of(a), k));
    if segment_id(a) == segment_id(b) || node_id(a) == node_id(b) {
        assert forall|k: int| 0 <= k < 8 implies byte_of(bits_of(a), k) == byte_of(bits_of(b), k) by {
            assert(segment_id(a)[k] == byte_of(bits_of(a), k));
            assert(segment_id(b)[k] == byte_of(bits_of(b), k));
            assert(node_id(a)[k + 8] == byte_of(bits_of(a), k));
            assert(node_id(b)[k + 8] == byte_of(bits_of(b), k));
        }
        assert(false);
    }
}

/// A road and a junction have one identifier only if both are numbered zero.
pub proof fn law_roads_and_junctions_are_disjoint(a: i64, b: i64)
    requires
        segment_id(a) == node_id(b),
    ensures
        a == 0,
        b == 0,
{
    lemma_bytes_spell(bits_of(a));
    lemma_bytes_spell(bits_of(b));
    assert forall|k: int| 0 <= k < 8 implies byte_of(bits_of(a), k) == 0 && byte_of(bits_of(b), k)
        == 0 by {
        assert(segment_id(a)[k] == byte_of(bits_of(a), k) && node_id(b)[k] == 0);
        assert(segment_id(a)[k + 8] == 0 && node_id(b)[k + 8] == byte_of(bits_of(b), k));
    }
}

/// The direction code of a flow direction: 2 and 3 stand for themselves, anything
/// else for 1.
pub open spec fn flow_code(flowdir: i64) -> u8 {
    if flowdir == 2 {
        2u8
    } else if flowdir == 3 {
        3u8
    } else {
        1u8
    }
}

/// The direction code of a flow direction.
pub fn map_flowdir(flowdir: i64) -> (r: u8)
    ensures
        r == flow_code(flowdir),
{
    match flowdir {
        2 => 2,
        3 => 3,
        _ => 1,
    }
}

/// Why a line of GeoJSON is refused. The number is that of the offending point.
#[derive(Debug, Clone, Copy, PartialEq, Eq, Structural)]
pub enum LineError {
    NotJson,
    MissingGeometry,
    MissingId,
    MissingFrc,
    MissingFow,
    MissingFlowdir,
    MissingFromInt,
    MissingToInt,
    MissingCoordinates,
    NotAPoint(usize),
    MissingLon(usize),
    MissingLat(usize),
}

/// A road as a line of GeoJSON describes it.
#[derive(Debug)]
pub struct Feature {
    pub id: i64,
    pub frc: i64,
    pub fow: i64,
    pub flowdir: i64,
    pub from_int: i64,
    pub to_int: i64,
    pub coords: Vec<(JsonNumber, JsonNumber)>,
}

/// What a `Feature` holds.
#[verifier::ext_equal]
pub struct FeatureModel {
    pub id: i64,
    pub frc: i64,
    pub fow: i64,
    pub flowdir: i64,
    pub from_int: i64,
    pub to_int: i64,
    pub coords: Seq<(JsonNumber, JsonNumber)>,
}

impl View for Feature {
    type V = FeatureModel;

    open spec fn view(&self) -> FeatureModel {
        FeatureModel {
            id: self.id,
            frc: self.frc,
            fow: self.fow,
            flowdir: self.flowdir,
            from_int: self.from_int,
            to_int: self.to_int,
            coords: self.coords@,
        }
    }
}

/// The number that a value is.
pub open spec fn number_in(j: JsonModel) -> Option<JsonNumber> {
    match j {
        JsonModel::Number(n) => Some(n),
        _ => None,
    }
}

/// The point that value `i` of a coordinate list spells: a list whose first two
/// values are numbers.
pub open spec fn point_of(j: JsonModel, i: int) -> Result<(JsonNumber, JsonNumber), LineError> {
    match j {
        JsonModel::List(v) => if v.len() < 1 || number_in(v[0]) is None {
            Err(LineError::MissingLon(i as usize))
        } else if v.len() < 2 || number_in(v[1]) is None {
            Err(LineError::MissingLat(i as usize))
        } else {
            Ok((number_in(v[0])->Some_0, number_in(v[1])->Some_0))
        },
        _ => Err(LineError::NotAPoint(i as usize)),
    }
}

/// The points that the first `n` values spell, or what is wrong with the first bad
/// one.
pub open spec fn points_of(v: Seq<JsonModel>, n: int) -> Result<Seq<(JsonNumber, JsonNumber)>, LineError>
    decreases n,
{
    if n <= 0 {
        Ok(Seq::empty())
    } else {
        match points_of(v, n - 1) {
            Err(e) => Err(e),
            Ok(p) => match point_of(v[n - 1], n - 1) {
                Err(e) => Err(e),
                Ok(q) => Ok(p.push(q)),
            },
        }
    }
}

/// What is missing of the six whole numbers that describe a road, first come first.
pub open spec fn missing_number(props: JsonModel) -> Option<LineError> {
    if int_member(props, "id"@) is None {
        Some(LineError::MissingId)
    } else if int_member(props, "frc"@) is None {
        Some(LineError::MissingFrc)
    } else if int_member(props, "fow"@) is None {
        Some(LineError::MissingFow)
    } else if int_member(props, "flowdir"@) is None {
        Some(LineError::MissingFlowdir)
    } else if int_member(props, "from_int"@) is None {
        Some(LineError::MissingFromInt)
    } else if int_member(props, "to_int"@) is None {
        Some(LineError::MissingToInt)
    } else {
        None
    }
}

/// The road that a document describes: a GeoJSON feature, or an object with the
/// same names and a geometry at top level. No road where the line has fewer than two
/// points.
pub open spec fn feature_in(doc: JsonModel) -> Result<Option<FeatureModel>, LineError> {
    let props = match member(doc, "properties"@) {
        Some(p) => p,
        None => doc,
    };
    match member(doc, "geometry"@) {
        None => Err(LineError::MissingGeometry),
        Some(geometry) => match missing_number(props) {
            Some(e) => Err(e),
            None => match member(geometry, "coordinates"@) {
                Some(JsonModel::List(v)) => if v.len() < 2 {
                    Ok(None)
                } else {
                    match points_of(v, v.len() as int) {
                        Err(e) => Err(e),
                        Ok(coords) => Ok(
                            Some(
                                FeatureModel {
                                    id: int_member(props, "id"@)->Some_0,
                                    frc: int_member(props, "frc"@)->Some_0,
                                    fow: int_member(props, "fow"@)->Some_0,
                                    flowdir: int_member(props, "flowdir"@)->Some_0,
                                    from_int: int_member(props, "from_int"@)->Some_0,
                                    to_int: int_member(props, "to_int"@)->Some_0,
                                    coords,
                                },
                            ),
                        ),
                    }
                },
                _ => Err(LineError::MissingCoordinates),
            },
        },
    }
}

proof fn lemma_points_fail(v: Seq<JsonModel>, k: int, n: int)
    requires
        0 <= k <= n,
        points_of(v, k) is Err,
    ensures
        points_of(v, n) == points_of(v, k),
    decreases n - k,
{
    if k < n {
        lemma_points_fail(v, k, n - 1);
    }
}

fn read_number(j: &Json) -> (r: Option<JsonNumber>)
    ensures
        r == number_in(j@),
{
    match j {
        Json::Number(n) => Some(*n),
        _ => None,
    }
}

fn read_points(j: &Json) -> (r: Result<Vec<(JsonNumber, JsonNumber)>, LineError>)
    requires
        j is List,
    ensures
        (match r {
            Ok(p) => points_of(j@->List_0, j@->List_0.len() as int) == Ok::<
                Seq<(JsonNumber, JsonNumber)>,
                LineError,
            >(p@),
            Err(e) => points_of(j@->List_0, j@->List_0.len() as int) == Err::<
                Seq<(JsonNumber, JsonNumber)>,
                LineError,
            >(e),
        }),
{
    let mut out: Vec<(JsonNumber, JsonNumber)> = Vec::new();
    match j {
        Json::List(v) => {
            let ghost all = j@->List_0;
            let mut i: usize = 0;
            while i < v.len()
                invariant
                    i <= v@.len(),
                    *j == Json::List(*v),
                    j@ == JsonModel::List(all),
                    all.len() == v@.len(),
                    points_of(all, i as int) == Ok::<Seq<(JsonNumber, JsonNumber)>, LineError>(
                        out@,
                    ),
                decreases v@.len() - i,
            {
                proof {
                    assert(all[i as int] == v@[i as int]@);
                    if points_of(all, i + 1) is Err {
                        lemma_points_fail(all, i + 1, all.len() as int);
                    }
                }
                match &v[i] {
                    Json::List(p) => {
                        let ghost point = all[i as int]->List_0;
                        assert(point.len() == p@.len());
                        assert(p@.len() > 0 ==> point[0] == p@[0]@);
                        assert(p@.len() > 1 ==> point[1] == p@[1]@);
                        let lon: JsonNumber = match if p.len() < 1 {
                            None
                        } else {
                            read_number(&p[0])
                        } {
                            Some(x) => x,
                            None => {
                                return Err(LineError::MissingLon(i));
                            },
                        };
                        let lat: JsonNumber = match if p.len() < 2 {
                            None
                        } else {
                            read_number(&p[1])
                        } {
                            Some(y) => y,
                            None => {
                                return Err(LineError::MissingLat(i));
                            },
                        };
                        out.push((lon, lat));
                    },
                    _ => {
                        return Err(LineError::NotAPoint(i));
                    },
                }
                i += 1;
            }
        },
        _ => {},
    }
    Ok(out)
}

/// The road that a document describes.
pub fn feature_from(doc: &Json) -> (r: Result<Option<Feature>, LineError>)
    ensures
        (match r {
            Ok(Some(f)) => feature_in(doc@) == Ok::<Option<FeatureModel>, LineError>(Some(f@)),
            Ok(None) => feature_in(doc@) == Ok::<Option<FeatureModel>, LineError>(None),
            Err(e) => feature_in(doc@) == Err::<Option<FeatureModel>, LineError>(e),
        }),
{
    let props: &Json = match doc.get("properties") {
        Some(p) => p,
        None => doc,
    };
    let geometry: &Json = match doc.get("geometry") {
        Some(g) => g,
        None => {
            return Err(LineError::MissingGeometry);
        },
    };
    let id: i64 = match props.get_int("id") {
        Some(v) => v,
        None => {
            return Err(LineError::MissingId);
        },
    };
    let frc: i64 = match props.get_int("frc") {
        Some(v) => v,
        None => {
            return Err(LineError::MissingFrc);
        },
    };
    let fow: i64 = match props.get_int("fow") {
        Some(v) => v,
        None => {
            return Err(LineError::MissingFow);
        },
    };
    let flowdir: i64 = match props.get_int("flowdir") {
        Some(v) => v,
        None => {
            return Err(LineError::MissingFlowdir);
        },
    };
    let from_int: i64 = match props.get_int("from_int") {
        Some(v) => v,
        None => {
            return Err(LineError::MissingFromInt);
        },
    };
    let to_int: i64 = match props.get_int("to_int") {
        Some(v) => v,
        None => {
            return Err(LineError::MissingToInt);
        },
    };
    match geometry.get("coordinates") {
        Some(list) => match list {
            Json::List(v) => {
                if v.len() < 2 {
                    return Ok(None);
                }
                match read_points(list) {
                    Ok(coords) => Ok(
                        Some(Feature { id, frc, fow, flowdir, from_int, to_int, coords }),
                    ),
                    Err(e) => Err(e),
                }
            },
            _ => Err(LineError::MissingCoordinates),
        },
        None => Err(LineError::MissingCoordinates),
    }
}

/// A road on the grid.
#[derive(Debug)]
pub struct EdgeBatch {
    pub start_id: ElementId,
    pub end_id: ElementId,
    pub parent_id: ElementId,
    /// Vertices (longitude, latitude), in units of 1e-7 degree.
    pub geom: Vec<(i32, i32)>,
    pub length_cm: u32,
    pub frc: u8,
    pub fow: u8,
    pub direction: u8,
}

/// A class or form of way, forced into the range of its three bits.
pub open spec fn clamped(v: i64) -> u8 {
    if v < 0 {
        0u8
    } else if v > 7 {
        7u8
    } else {
        v as u8
    }
}

fn clamp7(v: i64) -> (r: u8)
    ensures
        r == clamped(v),
{
    if v < 0 {
        0
    } else if v > 7 {
        7
    } else {
        v as u8
    }
}

/// The points of a road on the grid.
pub open spec fn on_grid(coords: Seq<(JsonNumber, JsonNumber)>, grid: spec_fn(JsonNumber) -> i32) -> Seq<(i32, i32)> {
    Seq::new(coords.len(), |i: int| (grid(coords[i].0), grid(coords[i].1)))
}

/// Whether `e` is road `f` on the grid, whatever its line is there.
pub open spec fn batch_of(f: FeatureModel, e: EdgeBatch) -> bool {
    &&& e.start_id@ == node_id(f.from_int)
    &&& e.end_id@ == node_id(f.to_int)
    &&& e.parent_id@ == segment_id(f.id)
    &&& e.frc == clamped(f.frc)
    &&& e.fow == clamped(f.fow)
    &&& e.direction == flow_code(f.flowdir)
    &&& e.geom@.len() >= 2
}

/// Put a road on the grid. `length` measures its line in centimetres; `grid` rounds
/// one coordinate to units of 1e-7 degree.
fn batch_from<L: Fn(&[(JsonNumber, JsonNumber)]) -> u32, Q: Fn(JsonNumber) -> i32>(
    f: &Feature,
    length: &L,
    grid: &Q,
) -> (e: EdgeBatch)
    requires
        f.coords@.len() >= 2,
        forall|v: &[(JsonNumber, JsonNumber)]| call_requires(*length, (v,)),
        forall|x: JsonNumber| call_requires(*grid, (x,)),
    ensures
        batch_of(f@, e),
        settled_on_lists(*length) ==> e.length_cm == list_answer(*length, f.coords@),
        settled(*grid) ==> e.geom@ == without_collinear(
            on_grid(f.coords@, |x: JsonNumber| answer(*grid, x)),
        ),
{
    let line: &[(JsonNumber, JsonNumber)] = f.coords.as_slice();
    let length_cm: u32 = length(line);
    proof {
        lemma_list_answer(*length, line, length_cm);
    }
    let ghost ask = |x: JsonNumber| answer(*grid, x);
    let mut raw: Vec<(i32, i32)> = Vec::new();
    let mut i: usize = 0;
    while i < f.coords.len()
        invariant
            i <= f.coords@.len(),
            forall|x: JsonNumber| call_requires(*grid, (x,)),
            ask == (|x: JsonNumber| answer(*grid, x)),
            raw@.len() == i,
            settled(*grid) ==> raw@ == on_grid(f.coords@, ask).take(i as int),
        decreases f.coords@.len() - i,
    {
        let (lon, lat): (JsonNumber, JsonNumber) = f.coords[i];
        let x: i32 = grid(lon);
        let y: i32 = grid(lat);
        proof {
            lemma_answer(*grid, lon, x);
            lemma_answer(*grid, lat, y);
        }
        raw.push((x, y));
        proof {
            if settled(*grid) {
                assert(raw@ =~= on_grid(f.coords@, ask).take(i + 1));
            }
        }
        i += 1;
    }
    proof {
        law_collinear_removal_keeps_the_ends(raw@);
        if settled(*grid) {
            assert(raw@ =~= on_grid(f.coords@, ask));
        }
    }
    let geom: Vec<(i32, i32)> = remove_collinear_lm(raw);
    EdgeBatch {
        start_id: node_id_bytes(f.from_int),
        end_id: node_id_bytes(f.to_int),
        parent_id: segment_id_bytes(f.id),
        geom,
        length_cm,
        frc: clamp7(f.frc),
        fow: clamp7(f.fow),
        direction: map_flowdir(f.flowdir),
    }
}

/// What a text describes: nothing where it is blank.
pub open spec fn line_feature(text: Seq<char>) -> Result<Option<FeatureModel>, LineError> {
    if trimmed(text).len() == 0 {
        Ok(None)
    } else {
        match json_of(text) {
            None => Err(LineError::NotJson),
            Some(doc) => feature_in(doc),
        }
    }
}

/// Read one line of GeoJSON and put its road on the grid. Also records where the road
/// ends. There is no road where the text is blank or its line has fewer than two points.
pub fn parse_line<L: Fn(&[(JsonNumber, JsonNumber)]) -> u32, Q: Fn(JsonNumber) -> i32>(
    line: &str,
    seg_to_to_int: &mut HashMap<i64, i64>,
    length: L,
    grid: Q,
) -> (r: Result<Option<EdgeBatch>, LineError>)
    requires
        forall|v: &[(JsonNumber, JsonNumber)]| call_requires(length, (v,)),
        forall|x: JsonNumber| call_requires(grid, (x,)),
    ensures
        (match line_feature(line@) {
            Err(e) => r == Err::<Option<EdgeBatch>, LineError>(e) && final(seg_to_to_int)@ == old(
                seg_to_to_int,
            )@,
            Ok(None) => r == Ok::<Option<EdgeBatch>, LineError>(None) && final(seg_to_to_int)@
                == old(seg_to_to_int)@,
            Ok(Some(f)) => {
                &&& final(seg_to_to_int)@ == old(seg_to_to_int)@.insert(f.id, f.to_int)
                &&& r matches Ok(Some(e)) && batch_of(f, e) && (settled_on_lists(length)
                    ==> e.length_cm == list_answer(length, f.coords)) && (settled(grid)
                    ==> e.geom@ == without_collinear(
                    on_grid(f.coords, |x: JsonNumber| answer(grid, x)),
                ))
            },
        }),
{
    broadcast use vstd::std_specs::hash::group_hash_axioms;

    let all: Vec<char> = chars_of(line);
    if trim(all.as_slice()).len() == 0 {
        return Ok(None);
    }
    let doc: Json = match read_json(line) {
        Some(doc) => doc,
        None => {
            return Err(LineError::NotJson);
        },
    };
    match feature_from(&doc) {
        Ok(Some(f)) => {
            proof {
                lemma_feature_has_points(doc@);
            }
            let e: EdgeBatch = batch_from(&f, &length, &grid);
            seg_to_to_int.insert(f.id, f.to_int);
            Ok(Some(e))
        },
        Ok(None) => Ok(None),
        Err(e) => Err(e),
    }
}

proof fn lemma_points_len(v: Seq<JsonModel>, n: int)
    requires
        0 <= n,
        points_of(v, n) is Ok,
    ensures
        points_of(v, n)->Ok_0.len() == n,
    decreases n,
{
    if n > 0 {
        lemma_points_len(v, n - 1);
    }
}

proof fn lemma_feature_has_points(doc: JsonModel)
    ensures
        feature_in(doc) matches Ok(Some(f)) ==> f.coords.len() >= 2,
{
    match member(doc, "geometry"@) {
        Some(geometry) => match member(geometry, "coordinates"@) {
            Some(JsonModel::List(v)) => {
                if points_of(v, v.len() as int) is Ok {
                    lemma_points_len(v, v.len() as int);
                }
            },
            _ => {},
        },
        None => {},
    }
}

/// What a line of a road file gives.
#[derive(Debug)]
pub enum RoadLine {
    /// The line is blank.
    Blank,
    /// The line describes a road of fewer than two points.
    Degenerate,
    /// The line is refused.
    Refused(LineError),
    /// The line describes this road.
    Road(EdgeBatch),
}

/// Reads road files line by line.
#[derive(Debug)]
pub struct RoadReader {
    seg_to_to_int: HashMap<i64, i64>,
    out: Extractor,
}

/// Whether `e` is the edge to store for a road whose ends were placed in tiles.
pub open spec fn placed_road(
    b: EdgeBatch,
    stable_id: Seq<char>,
    start: TilePlacement,
    end: TilePlacement,
    e: MeasuredEdge,
) -> bool {
    &&& e.parent_id == b.parent_id
    &&& e.stable_id@ == stable_id
    &&& e.geom@ == b.geom@
    &&& e.length_cm == b.length_cm
    &&& e.frc == b.frc
    &&& e.fow == b.fow
    &&& e.direction == b.direction
    &&& e.start.node_id == b.start_id
    &&& e.start.stable_id@ == start.stable_id@
    &&& (e.start.lon_e7, e.start.lat_e7) == b.geom@.first()
    &&& (e.start.tile_x, e.start.tile_y, e.start.tile_id) == start.tile
    &&& e.end.node_id == b.end_id
    &&& e.end.stable_id@ == end.stable_id@
    &&& (e.end.lon_e7, e.end.lat_e7) == b.geom@.last()
    &&& (e.end.tile_x, e.end.tile_y, e.end.tile_id) == end.tile
}

/// The stable id of one end of a road and the tile (x, y, number) that it lies in.
#[derive(Debug)]
pub struct TilePlacement {
    pub stable_id: String,
    pub tile: (u32, u32, u64),
}

impl RoadReader {
    /// The junction that each road read so far ends at.
    pub closed spec fn ends(self) -> Map<i64, i64> {
        self.seg_to_to_int@
    }

    /// The nodes stored so far.
    pub closed spec fn seen_nodes(self) -> Set<ElementId> {
        self.out.seen_nodes()
    }

    /// The number of the next edge.
    pub closed spec fn next_edge(self) -> u32 {
        self.out.next_edge()
    }

    /// A reader that has read nothing.
    pub fn new() -> (x: RoadReader)
        ensures
            x.ends() == Map::<i64, i64>::empty(),
            x.seen_nodes() == Set::<ElementId>::empty(),
            x.next_edge() == 0,
    {
        RoadReader { seg_to_to_int: HashMap::new(), out: Extractor::new() }
    }

    /// How many edges were stored.
    pub fn edge_count(&self) -> (n: u32)
        ensures
            n == self.next_edge(),
    {
        self.out.edge_count()
    }

    /// Read one line. White space around it is ignored.
    pub fn read_line<L: Fn(&[(JsonNumber, JsonNumber)]) -> u32, Q: Fn(JsonNumber) -> i32>(
        &mut self,
        line: &str,
        length: L,
        grid: Q,
    ) -> (r: RoadLine)
        requires
            forall|v: &[(JsonNumber, JsonNumber)]| call_requires(length, (v,)),
            forall|x: JsonNumber| call_requires(grid, (x,)),
        ensures
            final(self).seen_nodes() == old(self).seen_nodes(),
            final(self).next_edge() == old(self).next_edge(),
            trimmed(line@).len() == 0 ==> r == RoadLine::Blank && final(self).ends() == old(
                self,
            ).ends(),
            trimmed(line@).len() > 0 ==> match line_feature(trimmed(line@)) {
                Err(e) => r == RoadLine::Refused(e) && final(self).ends() == old(self).ends(),
                Ok(None) => r == RoadLine::Degenerate && final(self).ends() == old(self).ends(),
                Ok(Some(f)) => {
                    &&& final(self).ends() == old(self).ends().insert(f.id, f.to_int)
                    &&& r matches RoadLine::Road(e) && batch_of(f, e) && (settled_on_lists(
                        length,
                    ) ==> e.length_cm == list_answer(length, f.coords)) && (settled(grid)
                        ==> e.geom@ == without_collinear(
                        on_grid(f.coords, |x: JsonNumber| answer(grid, x)),
                    ))
                },
            },
    {
        let all: Vec<char> = chars_of(line);
        let part: &[char] = trim(all.as_slice());
        if part.len() == 0 {
            return RoadLine::Blank;
        }
        let text: String = text_from(part);
        match parse_line(text.as_str(), &mut self.seg_to_to_int, length, grid) {
            Ok(Some(e)) => RoadLine::Road(e),
            Ok(None) => RoadLine::Degenerate,
            Err(e) => RoadLine::Refused(e),
        }
    }

    /// The rows to store for a road whose ends were placed in tiles.
    pub fn store_road(
        &mut self,
        b: EdgeBatch,
        stable_id: String,
        start: TilePlacement,
        end: TilePlacement,
    ) -> (rows: EdgeRows)
        requires
            b.geom@.len() >= 1,
            old(self).next_edge() < u32::MAX,
        ensures
            final(self).ends() == old(self).ends(),
            final(self).next_edge() == old(self).next_edge() + 1,
            final(self).seen_nodes() == old(self).seen_nodes().insert(b.start_id).insert(
                b.end_id,
            ),
            exists|e: MeasuredEdge|
                #![trigger edge_rows(e, old(self).next_edge())]
                {
                    &&& placed_road(b, stable_id@, start, end, e)
                    &&& node_models(rows.nodes@) == new_nodes(old(self).seen_nodes(), e)
                    &&& edge_models(rows.edges@) == edge_rows(e, old(self).next_edge())
                },
    {
        let first: (i32, i32) = b.geom[0];
        let last: (i32, i32) = b.geom[b.geom.len() - 1];
        let e = MeasuredEdge {
            parent_id: b.parent_id,
            stable_id,
            geom: b.geom,
            length_cm: b.length_cm,
            frc: b.frc,
            fow: b.fow,
            direction: b.direction,
            start: EdgeEnd {
                node_id: b.start_id,
                stable_id: start.stable_id,
                lon_e7: first.0,
                lat_e7: first.1,
                tile_x: start.tile.0,
                tile_y: start.tile.1,
                tile_id: start.tile.2,
            },
            end: EdgeEnd {
                node_id: b.end_id,
                stable_id: end.stable_id,
                lon_e7: last.0,
                lat_e7: last.1,
                tile_x: end.tile.0,
                tile_y: end.tile.1,
                tile_id: end.tile.2,
            },
        };
        assert(placed_road(b, stable_id@, start, end, e));
        self.out.add_edge(&e)
    }

    /// Read turn restrictions, one per line: `from, to` or `from, via, to`. Blank
    /// lines and lines that start with `#` are ignored, and so are lines of another
    /// number of columns and two-column lines whose first road is not known. The
    /// first number that cannot be read refuses the whole.
    pub fn read_restrictions(&self, lines: &[String]) -> (r: Result<
        Vec<RestrictionRow>,
        CsvFailure,
    >)
        ensures
            (match r {
                Ok(rows) => csv_rows(lines@, self.ends(), lines@.len() as int) == Ok::<
                    Seq<(Seq<u8>, Seq<u8>, Seq<u8>)>,
                    CsvFailure,
                >(id_triples(rows@)) && forall|i: int|
                    0 <= i < rows@.len() ==> (#[trigger] rows@[i]).flags == 0,
                Err(e) => csv_rows(lines@, self.ends(), lines@.len() as int) == Err::<
                    Seq<(Seq<u8>, Seq<u8>, Seq<u8>)>,
                    CsvFailure,
                >(e),
            }),
    {
        let mut rows: Vec<RestrictionRow> = Vec::new();
        let mut i: usize = 0;
        assert(id_triples(rows@) =~= Seq::empty());
        while i < lines.len()
            invariant
                i <= lines@.len(),
                csv_rows(lines@, self.ends(), i as int) == Ok::<
                    Seq<(Seq<u8>, Seq<u8>, Seq<u8>)>,
                    CsvFailure,
                >(id_triples(rows@)),
                forall|k: int| 0 <= k < rows@.len() ==> (#[trigger] rows@[k]).flags == 0,
            decreases lines@.len() - i,
        {
            proof {
                if csv_rows(lines@, self.ends(), i + 1) is Err {
                    lemma_csv_fails(lines@, self.ends(), i + 1, lines@.len() as int);
                }
            }
            let ghost before = rows@;
            match read_restriction(lines[i].as_str(), &self.seg_to_to_int) {
                Ok(CsvLine::Restriction(from, via, to)) => {
                    let row = RestrictionRow {
                        from_id: segment_id_bytes(from),
                        via_id: node_id_bytes(via),
                        to_id: segment_id_bytes(to),
                        flags: 0,
                    };
                    rows.push(row);
                    assert(id_triples(rows@) =~= id_triples(before).push(
                        (segment_id(from), node_id(via), segment_id(to)),
                    ));
                },
                Ok(_) => {},
                Err(error) => {
                    return Err(CsvFailure { line: i, error });
                },
            }
            i += 1;
        }
        Ok(rows)
    }
}

/// Which number of a restriction line cannot be read.
#[derive(Debug, Clone, Copy, PartialEq, Eq, Structural)]
pub enum CsvError {
    BadFrom,
    BadVia,
    BadTo,
}

/// A restriction line that cannot be read. Lines are counted from zero.
#[derive(Debug, Clone, Copy, PartialEq, Eq, Structural)]
pub struct CsvFailure {
    pub line: usize,
    pub error: CsvError,
}

/// What a restriction line says.
#[derive(Debug, Clone, Copy, PartialEq, Eq, Structural)]
pub enum CsvLine {
    /// Nothing: it is blank or a comment.
    Nothing,
    /// It has neither two nor three columns.
    WrongColumns,
    /// It names no junction, and where its first road ends is not known.
    UnknownVia(i64),
    /// It forbids the turn from a road over a junction into a road.
    Restriction(i64, i64, i64),
}

/// The number in a column, white space around it ignored.
pub open spec fn column(cols: Seq<Seq<char>>, k: int) -> Option<i64> {
    int_of(trimmed(cols[k]))
}

/// What a restriction line says, given where each road ends.
pub open spec fn csv_line(line: Seq<char>, ends: Map<i64, i64>) -> Result<CsvLine, CsvError> {
    let t = trimmed(line);
    let cols = split_commas(t);
    if t.len() == 0 || t[0] == '#' {
        Ok(CsvLine::Nothing)
    } else if cols.len() == 2 {
        match (column(cols, 0), column(cols, 1)) {
            (None, _) => Err(CsvError::BadFrom),
            (_, None) => Err(CsvError::BadTo),
            (Some(from), Some(to)) => if ends.contains_key(from) {
                Ok(CsvLine::Restriction(from, ends[from], to))
            } else {
                Ok(CsvLine::UnknownVia(from))
            },
        }
    } else if cols.len() == 3 {
        match (column(cols, 0), column(cols, 1), column(cols, 2)) {
            (None, _, _) => Err(CsvError::BadFrom),
            (_, None, _) => Err(CsvError::BadVia),
            (_, _, None) => Err(CsvError::BadTo),
            (Some(from), Some(via), Some(to)) => Ok(CsvLine::Restriction(from, via, to)),
        }
    } else {
        Ok(CsvLine::WrongColumns)
    }
}

/// The identifiers of some restrictions.
pub open spec fn id_triples(v: Seq<RestrictionRow>) -> Seq<(Seq<u8>, Seq<u8>, Seq<u8>)> {
    Seq::new(v.len(), |i: int| (v[i].from_id@, v[i].via_id@, v[i].to_id@))
}

/// The restrictions that the first `n` lines state, or the first line that cannot be
/// read.
pub open spec fn csv_rows(lines: Seq<String>, ends: Map<i64, i64>, n: int) -> Result<
    Seq<(Seq<u8>, Seq<u8>, Seq<u8>)>,
    CsvFailure,
>
    decreases n,
{
    if n <= 0 {
        Ok(Seq::empty())
    } else {
        match csv_rows(lines, ends, n - 1) {
            Err(e) => Err(e),
            Ok(v) => match csv_line(lines[n - 1]@, ends) {
                Err(error) => Err(CsvFailure { line: (n - 1) as usize, error }),
                Ok(CsvLine::Restriction(from, via, to)) => Ok(
                    v.push((segment_id(from), node_id(via), segment_id(to))),
                ),
                Ok(_) => Ok(v),
            },
        }
    }
}

proof fn lemma_csv_fails(lines: Seq<String>, ends: Map<i64, i64>, k: int, n: int)
    requires
        0 <= k <= n,
        csv_rows(lines, ends, k) is Err,
    ensures
        csv_rows(lines, ends, n) == csv_rows(lines, ends, k),
    decreases n - k,
{
    if k < n {
        lemma_csv_fails(lines, ends, k, n - 1);
    }
}

fn read_column(cols: &Vec<Vec<char>>, k: usize) -> (r: Option<i64>)
    requires
        k < cols@.len(),
    ensures
        r == column(pieces_of(cols@), k as int),
{
    assert(pieces_of(cols@)[k as int] == cols@[k as int]@);
    parse_int(trim(cols[k].as_slice()))
}

/// Read one restriction line.
pub fn read_restriction(line: &str, seg_to_to_int: &HashMap<i64, i64>) -> (r: Result<
    CsvLine,
    CsvError,
>)
    ensures
        r == csv_line(line@, seg_to_to_int@),
{
    broadcast use vstd::std_specs::hash::group_hash_axioms;

    let all: Vec<char> = chars_of(line);
    let t: &[char] = trim(all.as_slice());
    if t.len() == 0 || t[0] == '#' {
        return Ok(CsvLine::Nothing);
    }
    let cols: Vec<Vec<char>> = split_at_commas(t);
    assert(pieces_of(cols@).len() == cols@.len());
    if cols.len() == 2 {
        let from: i64 = match read_column(&cols, 0) {
            Some(v) => v,
            None => {
                return Err(CsvError::BadFrom);
            },
        };
        let to: i64 = match read_column(&cols, 1) {
            Some(v) => v,
            None => {
                return Err(CsvError::BadTo);
            },
        };
        match seg_to_to_int.get(&from) {
            Some(via) => Ok(CsvLine::Restriction(from, *via, to)),
            None => Ok(CsvLine::UnknownVia(from)),
        }
    } else if cols.len() == 3 {
        let from: i64 = match read_column(&cols, 0) {
            Some(v) => v,
            None => {
                return Err(CsvError::BadFrom);
            },
        };
        let via: i64 = match read_column(&cols, 1) {
            Some(v) => v,
            None => {
                return Err(CsvError::BadVia);
            },
        };
        let to: i64 = match read_column(&cols, 2) {
            Some(v) => v,
            None => {
                return Err(CsvError::BadTo);
            },
        };
        Ok(CsvLine::Restriction(from, via, to))
    } else {
        Ok(CsvLine::WrongColumns)
    }
}

} // verus!
