//! What is read from road files, tables and restriction lists stands in them.
use vstd::prelude::*;

use crate::bytes::i64_at;
use crate::canonical::{
    checked, direction_code, flags_of, heading_code, hex_of, registered, reported, wkt_inner,
    wkt_line, wkt_points, CanonicalError, CanonicalRow, KeyCollision, KeyModel, WktError,
};
use crate::generic::{
    batch_of, bits_of, byte_of, csv_line, csv_rows, feature_in, node_id, on_grid, points_of,
    segment_id, CsvError, CsvLine, EdgeBatch, FeatureModel, LineError,
};
use crate::graph::way_id_of;
use crate::joined::joined;
use crate::json::{int_member, member, member_among, JsonModel, JsonNumber};
use crate::scan::{int_of, is_space, split_commas, trimmed, words_of};
use crate::text_laws::{all_space, law_trimming_takes_off_white_space};
use crate::tile_writer::id_number;

verus! {

/// Whether the first member of an object under a name has this value.
pub open spec fn has_member(j: JsonModel, name: Seq<char>, v: JsonModel) -> bool {
    match j {
        JsonModel::Object(members) => exists|i: int|
            {
                &&& 0 <= i < members.len()
                &&& (#[trigger] members[i]).0 == name
                &&& members[i].1 == v
                &&& forall|k: int| 0 <= k < i ==> (#[trigger] members[k]).0 != name
            },
        _ => false,
    }
}

proof fn lemma_member_among(members: Seq<(Seq<char>, JsonModel)>, name: Seq<char>, n: int)
    requires
        0 <= n <= members.len(),
    ensures
        (match member_among(members, name, n) {
            Some(v) => exists|i: int|
                {
                    &&& 0 <= i < n
                    &&& (#[trigger] members[i]).0 == name
                    &&& members[i].1 == v
                    &&& forall|k: int| 0 <= k < i ==> (#[trigger] members[k]).0 != name
                },
            None => forall|k: int| 0 <= k < n ==> (#[trigger] members[k]).0 != name,
        }),
    decreases n,
{
    if n > 0 {
        lemma_member_among(members, name, n - 1);
        if member_among(members, name, n - 1) is None && members[n - 1].0 == name {
            assert(members[n - 1].1 == members[n - 1].1);
        }
    }
}

/// The value under a name of an object is that of its first member of that name; a value
/// that is no object has none.
pub proof fn law_members_are_found_by_name(j: JsonModel, name: Seq<char>)
    ensures
        (match member(j, name) {
            Some(v) => has_member(j, name, v),
            None => forall|v: JsonModel| !(#[trigger] has_member(j, name, v)),
        }),
        (match int_member(j, name) {
            Some(n) => has_member(j, name, JsonModel::Number(JsonNumber::Whole(n))),
            None => forall|n: i64|
                !(#[trigger] has_member(j, name, JsonModel::Number(JsonNumber::Whole(n)))),
        }),
{
    if let JsonModel::Object(members) = j {
        lemma_member_among(members, name, members.len() as int);
        if let Some(v) = member(j, name) {
            assert(has_member(j, name, v));
            assert forall|w: JsonModel| #[trigger] has_member(j, name, w) implies w == v by {
                let i = choose|i: int|
                    {
                        &&& 0 <= i < members.len()
                        &&& (#[trigger] members[i]).0 == name
                        &&& members[i].1 == v
                        &&& forall|k: int| 0 <= k < i ==> (#[trigger] members[k]).0 != name
                    };
                let h = choose|h: int|
                    {
                        &&& 0 <= h < members.len()
                        &&& (#[trigger] members[h]).0 == name
                        &&& members[h].1 == w
                        &&& forall|k: int| 0 <= k < h ==> (#[trigger] members[k]).0 != name
                    };
                if i < h {
                    assert(members[i].0 != name);
                } else if h < i {
                    assert(members[h].0 != name);
                }
            }
        }
    }
}

/// Whether a whole number stands under a name.
pub open spec fn has_int(j: JsonModel, name: Seq<char>, n: i64) -> bool {
    has_member(j, name, JsonModel::Number(JsonNumber::Whole(n)))
}

/// Whether `props` are the properties of a feature, or the document itself where it has
/// none.
pub open spec fn has_props(doc: JsonModel, props: JsonModel) -> bool {
    ||| has_member(doc, "properties"@, props)
    ||| props == doc && forall|v: JsonModel| !(#[trigger] has_member(doc, "properties"@, v))
}

/// Whether a document has a geometry with this list of coordinates.
pub open spec fn has_line(doc: JsonModel, line: Seq<JsonModel>) -> bool {
    exists|geometry: JsonModel| #[trigger]
        has_member(doc, "geometry"@, geometry) && has_member(
            geometry,
            "coordinates"@,
            JsonModel::List(line),
        )
}

/// Whether no whole number stands under a name.
pub open spec fn has_no_int(j: JsonModel, name: Seq<char>) -> bool {
    forall|n: i64| !(#[trigger] has_int(j, name, n))
}

/// Whether a value spells a point: a list that starts with two numbers.
pub open spec fn spells_point(j: JsonModel, p: (JsonNumber, JsonNumber)) -> bool {
    match j {
        JsonModel::List(v) => v.len() >= 2 && v[0] == JsonModel::Number(p.0) && v[1]
            == JsonModel::Number(p.1),
        _ => false,
    }
}

/// Whether value `i` spells no point, for the reason given.
pub open spec fn spells_none(j: JsonModel, i: int, e: LineError) -> bool {
    match (j, e) {
        (JsonModel::List(v), LineError::MissingLon(k)) => (i <= usize::MAX ==> k == i) && (v.len()
            == 0 || !(v[0] is Number)),
        (JsonModel::List(v), LineError::MissingLat(k)) => (i <= usize::MAX ==> k == i) && v.len()
            > 0 && v[0] is Number && (v.len() == 1 || !(v[1] is Number)),
        (JsonModel::List(_), _) => false,
        (_, LineError::NotAPoint(k)) => i <= usize::MAX ==> k == i,
        _ => false,
    }
}

/// Whether a road is what a document describes: its numbers stand under their names, and
/// its points are those of the coordinate list, longitude first.
pub open spec fn is_described(
    props: JsonModel,
    line: Seq<JsonModel>,
    f: FeatureModel,
) -> bool {
    &&& has_int(props, "id"@, f.id)
    &&& has_int(props, "frc"@, f.frc)
    &&& has_int(props, "fow"@, f.fow)
    &&& has_int(props, "flowdir"@, f.flowdir)
    &&& has_int(props, "from_int"@, f.from_int)
    &&& has_int(props, "to_int"@, f.to_int)
    &&& line.len() >= 2
    &&& f.coords.len() == line.len()
    &&& forall|i: int| 0 <= i < line.len() ==> spells_point(#[trigger] line[i], f.coords[i])
}

/// Why a document describes no road.
pub open spec fn is_refused(doc: JsonModel, props: JsonModel, e: LineError) -> bool {
    match e {
        LineError::NotJson => false,
        LineError::MissingGeometry => forall|v: JsonModel|
            !(#[trigger] has_member(doc, "geometry"@, v)),
        LineError::MissingId => has_no_int(props, "id"@),
        LineError::MissingFrc => has_no_int(props, "frc"@),
        LineError::MissingFow => has_no_int(props, "fow"@),
        LineError::MissingFlowdir => has_no_int(props, "flowdir"@),
        LineError::MissingFromInt => has_no_int(props, "from_int"@),
        LineError::MissingToInt => has_no_int(props, "to_int"@),
        LineError::MissingCoordinates => forall|line: Seq<JsonModel>|
            !(#[trigger] has_line(doc, line)),
        _ => exists|line: Seq<JsonModel>, i: int|
            has_line(doc, line) && 0 <= i < line.len() && spells_none(#[trigger] line[i], i, e),
    }
}

proof fn lemma_points(v: Seq<JsonModel>, n: int)
    requires
        0 <= n <= v.len(),
    ensures
        points_of(v, n) matches Ok(p) ==> p.len() == n && forall|i: int|
            0 <= i < n ==> spells_point(#[trigger] v[i], p[i]),
        points_of(v, n) matches Err(e) ==> exists|i: int|
            0 <= i < n && spells_none(#[trigger] v[i], i, e),
    decreases n,
{
    if n > 0 {
        lemma_points(v, n - 1);
        if let Ok(before) = points_of(v, n - 1) {
            if let Ok(p) = points_of(v, n) {
                assert forall|i: int| 0 <= i < n implies spells_point(#[trigger] v[i], p[i]) by {
                    if i < n - 1 {
                        assert(p[i] == before[i]);
                    }
                }
            } else {
                let e = points_of(v, n)->Err_0;
                assert(spells_none(v[n - 1], n - 1, e));
            }
        }
    }
}

/// The road that is read from a document is the one that it describes. It describes none
/// where its line has fewer than two points, and a document is refused for what it lacks.
pub proof fn law_roads_are_read_as_described(doc: JsonModel)
    ensures
        (match feature_in(doc) {
            Ok(Some(f)) => exists|props: JsonModel, line: Seq<JsonModel>|
                has_props(doc, props) && has_line(doc, line) && #[trigger] is_described(
                    props,
                    line,
                    f,
                ),
            Ok(None) => exists|line: Seq<JsonModel>| #[trigger] has_line(doc, line) && line.len()
                < 2,
            Err(e) => exists|props: JsonModel|
                has_props(doc, props) && #[trigger] is_refused(doc, props, e),
        }),
{
    law_members_are_found_by_name(doc, "properties"@);
    law_members_are_found_by_name(doc, "geometry"@);
    let props = match member(doc, "properties"@) {
        Some(p) => p,
        None => doc,
    };
    assert(has_props(doc, props));
    law_members_are_found_by_name(props, "id"@);
    law_members_are_found_by_name(props, "frc"@);
    law_members_are_found_by_name(props, "fow"@);
    law_members_are_found_by_name(props, "flowdir"@);
    law_members_are_found_by_name(props, "from_int"@);
    law_members_are_found_by_name(props, "to_int"@);
    match member(doc, "geometry"@) {
        None => {
            assert(is_refused(doc, props, LineError::MissingGeometry));
        },
        Some(geometry) => {
            lemma_only_member(doc, "geometry"@, geometry);
            law_members_are_found_by_name(geometry, "coordinates"@);
            if let Err(e) = feature_in(doc) {
                lemma_line_refused(doc, props, geometry, e);
                assert(is_refused(doc, props, e));
            }
            if let Some(JsonModel::List(line)) = member(geometry, "coordinates"@) {
                assert(has_line(doc, line));
                lemma_points(line, line.len() as int);
                if let Ok(Some(f)) = feature_in(doc) {
                    assert(is_described(props, line, f));
                }
            }
        },
    }
}

proof fn lemma_only_member(j: JsonModel, name: Seq<char>, v: JsonModel)
    requires
        member(j, name) == Some(v),
    ensures
        forall|w: JsonModel| #[trigger] has_member(j, name, w) ==> w == v,
{
    law_members_are_found_by_name(j, name);
    if let JsonModel::Object(members) = j {
        assert forall|w: JsonModel| #[trigger] has_member(j, name, w) implies w == v by {
            let i = choose|i: int|
                {
                    &&& 0 <= i < members.len()
                    &&& (#[trigger] members[i]).0 == name
                    &&& members[i].1 == v
                    &&& forall|k: int| 0 <= k < i ==> (#[trigger] members[k]).0 != name
                };
            let h = choose|h: int|
                {
                    &&& 0 <= h < members.len()
                    &&& (#[trigger] members[h]).0 == name
                    &&& members[h].1 == w
                    &&& forall|k: int| 0 <= k < h ==> (#[trigger] members[k]).0 != name
                };
            if i < h {
                assert(members[i].0 != name);
            } else if h < i {
                assert(members[h].0 != name);
            }
        }
    }
}

proof fn lemma_line_refused(doc: JsonModel, props: JsonModel, geometry: JsonModel, e: LineError)
    requires
        member(doc, "geometry"@) == Some(geometry),
        props == (match member(doc, "properties"@) {
            Some(p) => p,
            None => doc,
        }),
        feature_in(doc) == Err::<Option<FeatureModel>, LineError>(e),
    ensures
        is_refused(doc, props, e),
{
    lemma_only_member(doc, "geometry"@, geometry);
    law_members_are_found_by_name(doc, "geometry"@);
    law_members_are_found_by_name(geometry, "coordinates"@);
    law_members_are_found_by_name(props, "id"@);
    law_members_are_found_by_name(props, "frc"@);
    law_members_are_found_by_name(props, "fow"@);
    law_members_are_found_by_name(props, "flowdir"@);
    law_members_are_found_by_name(props, "from_int"@);
    law_members_are_found_by_name(props, "to_int"@);
    match member(geometry, "coordinates"@) {
        Some(JsonModel::List(line)) => {
            assert(has_line(doc, line));
            lemma_points(line, line.len() as int);
        },
        found => {
            assert forall|line: Seq<JsonModel>| !(#[trigger] has_line(doc, line)) by {
                if has_line(doc, line) {
                    assert(has_member(geometry, "coordinates"@, JsonModel::List(line)));
                    if let Some(v) = found {
                        lemma_only_member(geometry, "coordinates"@, v);
                    }
                }
            }
        },
    }
}

proof fn lemma_bytes(v: u64)
    ensures
        v == byte_of(v, 0) + 0x100 * byte_of(v, 1) + 0x1_0000 * byte_of(v, 2) + 0x100_0000
            * byte_of(v, 3) + 0x1_0000_0000 * byte_of(v, 4) + 0x100_0000_0000 * byte_of(v, 5)
            + 0x1_0000_0000_0000 * byte_of(v, 6) + 0x100_0000_0000_0000 * byte_of(v, 7),
{
    reveal_with_fuel(byte_of, 9);
}

/// The identifier of a road spells its number in its first eight bytes and zero in the last
/// eight, that of a junction the other way round.
pub proof fn law_ids_spell_their_numbers(id: i64)
    ensures
        segment_id(id).len() == 16,
        i64_at(segment_id(id), 0) == id,
        i64_at(segment_id(id), 8) == 0,
        node_id(id).len() == 16,
        i64_at(node_id(id), 0) == 0,
        i64_at(node_id(id), 8) == id,
{
    lemma_bytes(bits_of(id));
    let s = segment_id(id);
    let n = node_id(id);
    assert(forall|k: int| 0 <= k < 8 ==> #[trigger] s[k] == byte_of(bits_of(id), k));
    assert(forall|k: int| 8 <= k < 16 ==> #[trigger] s[k] == 0);
    assert(forall|k: int| 0 <= k < 8 ==> #[trigger] n[k] == 0);
    assert(forall|k: int| 8 <= k < 16 ==> #[trigger] n[k] == byte_of(bits_of(id), k - 8));
    assert(n[8] == byte_of(bits_of(id), 0));
    assert(n[9] == byte_of(bits_of(id), 1));
    assert(n[10] == byte_of(bits_of(id), 2));
    assert(n[11] == byte_of(bits_of(id), 3));
    assert(n[12] == byte_of(bits_of(id), 4));
    assert(n[13] == byte_of(bits_of(id), 5));
    assert(n[14] == byte_of(bits_of(id), 6));
    assert(n[15] == byte_of(bits_of(id), 7));
}

/// The identifier of a road is read back as the way that it is named by, where its number is
/// not zero.
pub proof fn law_road_ids_name_their_way(id: i64)
    ensures
        way_id_of(segment_id(id)) == if id == 0 {
            None
        } else {
            Some(id)
        },
{
    law_ids_spell_their_numbers(id);
    let s = segment_id(id);
    assert(forall|k: int| 8 <= k < 16 ==> #[trigger] s[k] == 0);
    if id != 0 && forall|k: int| 0 <= k < 8 ==> s[k] == 0 {
        assert(s[0] == 0 && s[1] == 0 && s[2] == 0 && s[3] == 0 && s[4] == 0 && s[5] == 0 && s[6]
            == 0 && s[7] == 0);
    }
    if id == 0 {
        lemma_bytes(0);
        assert(bits_of(0) == 0);
        assert forall|k: int| 0 <= k < 8 implies s[k] == 0 by {
            assert(s[k] == byte_of(0, k));
        }
    }
}

/// A number forced into the range from 0 to 7.
pub open spec fn forced(v: i64, r: u8) -> bool {
    &&& r <= 7
    &&& 0 <= v <= 7 ==> r == v
    &&& v < 0 ==> r == 0
    &&& v > 7 ==> r == 7
}

/// A road on the grid runs from the junction where the road starts to the one where it ends,
/// under the road's number, with its class and form of way forced into their range, and with
/// its flow direction where that is 2 or 3, and 1 otherwise.
pub proof fn law_roads_keep_their_numbers(f: FeatureModel, e: EdgeBatch)
    requires
        batch_of(f, e),
    ensures
        i64_at(e.start_id@, 0) == 0 && i64_at(e.start_id@, 8) == f.from_int,
        i64_at(e.end_id@, 0) == 0 && i64_at(e.end_id@, 8) == f.to_int,
        i64_at(e.parent_id@, 0) == f.id && i64_at(e.parent_id@, 8) == 0,
        forced(f.frc, e.frc),
        forced(f.fow, e.fow),
        f.flowdir == 2 || f.flowdir == 3 ==> e.direction == f.flowdir,
        f.flowdir != 2 && f.flowdir != 3 ==> e.direction == 1,
        e.geom@.len() >= 2,
{
    law_ids_spell_their_numbers(f.from_int);
    law_ids_spell_their_numbers(f.to_int);
    law_ids_spell_their_numbers(f.id);
}

/// The points of a road on the grid are its points, each coordinate for itself.
pub proof fn law_grid_keeps_the_points(
    coords: Seq<(JsonNumber, JsonNumber)>,
    grid: spec_fn(JsonNumber) -> i32,
    i: int,
)
    requires
        0 <= i < coords.len(),
    ensures
        on_grid(coords, grid).len() == coords.len(),
        on_grid(coords, grid)[i].0 == grid(coords[i].0),
        on_grid(coords, grid)[i].1 == grid(coords[i].1),
{
}

/// Whether a column holds a number, white space around it aside.
pub open spec fn holds(cols: Seq<Seq<char>>, k: int, n: i64) -> bool {
    int_of(trimmed(cols[k])) == Some(n)
}

/// Whether a column holds no number.
pub open spec fn holds_none(cols: Seq<Seq<char>>, k: int) -> bool {
    int_of(trimmed(cols[k])) is None
}

/// A restriction line says what its columns hold: the first is the road that is left, the
/// last the road that is entered, and the one between, or else the end of the first road,
/// the junction. It says nothing where it is blank or starts with `#`, and it is refused for
/// the first column that holds no number.
pub proof fn law_restriction_lines_say_their_columns(line: Seq<char>, ends: Map<i64, i64>)
    ensures
        ({
            let t = trimmed(line);
            let cols = split_commas(t);
            let n = cols.len() as int;
            let said = t.len() > 0 && t[0] != '#';
            match csv_line(line, ends) {
                Ok(CsvLine::Nothing) => !said,
                Ok(CsvLine::WrongColumns) => said && n != 2 && n != 3,
                Ok(CsvLine::UnknownVia(from)) => said && n == 2 && holds(cols, 0, from)
                    && !holds_none(cols, 1) && !ends.contains_key(from),
                Ok(CsvLine::Restriction(from, over, to)) => said && (n == 2 || n == 3) && holds(
                    cols,
                    0,
                    from,
                ) && holds(cols, n - 1, to) && (if n == 3 {
                    holds(cols, 1, over)
                } else {
                    ends.contains_key(from) && ends[from] == over
                }),
                Err(CsvError::BadFrom) => said && (n == 2 || n == 3) && holds_none(cols, 0),
                Err(CsvError::BadVia) => said && n == 3 && !holds_none(cols, 0) && holds_none(
                    cols,
                    1,
                ),
                Err(CsvError::BadTo) => said && (n == 2 || n == 3) && !holds_none(cols, 0)
                    && holds_none(cols, n - 1) && (n == 3 ==> !holds_none(cols, 1)),
            }
        }),
{
}

/// The restriction that a line states, if it states one.
pub open spec fn stated(line: Seq<char>, ends: Map<i64, i64>) -> Seq<
    (Seq<u8>, Seq<u8>, Seq<u8>),
> {
    match csv_line(line, ends) {
        Ok(CsvLine::Restriction(from, over, to)) => seq![
            (segment_id(from), node_id(over), segment_id(to)),
        ],
        _ => Seq::empty(),
    }
}

/// A list of restrictions is what its lines state, line by line; and where a line cannot be
/// read, the first such line is reported, with what is wrong with it.
pub proof fn law_restriction_lists_are_read_line_by_line(
    lines: Seq<String>,
    ends: Map<i64, i64>,
    n: int,
)
    requires
        0 <= n <= lines.len() <= usize::MAX,
    ensures
        (match csv_rows(lines, ends, n) {
            Ok(v) => v == joined(Seq::new(n as nat, |i: int| stated(lines[i]@, ends)))
                && forall|i: int| 0 <= i < n ==> csv_line((#[trigger] lines[i])@, ends) is Ok,
            Err(f) => f.line < n && csv_line(lines[f.line as int]@, ends) == Err::<
                CsvLine,
                CsvError,
            >(f.error) && forall|i: int|
                0 <= i < f.line ==> csv_line((#[trigger] lines[i])@, ends) is Ok,
        }),
    decreases n,
{
    let pieces = Seq::new(n as nat, |i: int| stated(lines[i]@, ends));
    if n > 0 {
        law_restriction_lists_are_read_line_by_line(lines, ends, n - 1);
        assert(pieces.drop_last() =~= Seq::new(
            (n - 1) as nat,
            |i: int| stated(lines[i]@, ends),
        ));
        if let Ok(v) = csv_rows(lines, ends, n) {
            assert(v =~= joined(pieces));
        }
    } else {
        assert(joined(pieces) =~= Seq::empty());
    }
}

/// Whether a piece of text spells a point: its first two words are the numbers.
pub open spec fn wkt_spells<N>(
    piece: Seq<char>,
    number: spec_fn(Seq<char>) -> Option<N>,
    p: (N, N),
) -> bool {
    let w = words_of(trimmed(piece));
    w.len() >= 2 && number(w[0]) == Some(p.0) && number(w[1]) == Some(p.1)
}

/// Whether piece `i` spells no point, for the reason given.
pub open spec fn wkt_spells_none<N>(
    piece: Seq<char>,
    i: int,
    number: spec_fn(Seq<char>) -> Option<N>,
    e: WktError,
) -> bool {
    let w = words_of(trimmed(piece));
    match e {
        WktError::NotALinestring => false,
        WktError::MissingLongitude(k) => (i <= usize::MAX ==> k == i) && w.len() == 0,
        WktError::BadLongitude(k) => (i <= usize::MAX ==> k == i) && w.len() > 0 && number(
            w[0],
        ) is None,
        WktError::MissingLatitude(k) => (i <= usize::MAX ==> k == i) && w.len() == 1 && number(
            w[0],
        ) is Some,
        WktError::BadLatitude(k) => (i <= usize::MAX ==> k == i) && w.len() > 1 && number(
            w[0],
        ) is Some && number(w[1]) is None,
    }
}

proof fn lemma_wkt_points<N>(
    pieces: Seq<Seq<char>>,
    number: spec_fn(Seq<char>) -> Option<N>,
    n: int,
)
    requires
        0 <= n <= pieces.len(),
    ensures
        wkt_points(pieces, number, n) matches Ok(v) ==> v.len() == n && forall|i: int|
            0 <= i < n ==> wkt_spells(#[trigger] pieces[i], number, v[i]),
        wkt_points(pieces, number, n) matches Err(e) ==> exists|i: int|
            0 <= i < n && wkt_spells_none(#[trigger] pieces[i], i, number, e),
    decreases n,
{
    if n > 0 {
        lemma_wkt_points(pieces, number, n - 1);
        if let Ok(before) = wkt_points(pieces, number, n - 1) {
            if let Ok(v) = wkt_points(pieces, number, n) {
                assert forall|i: int| 0 <= i < n implies wkt_spells(
                    #[trigger] pieces[i],
                    number,
                    v[i],
                ) by {
                    if i < n - 1 {
                        assert(v[i] == before[i]);
                    }
                }
            } else {
                let e = wkt_points(pieces, number, n)->Err_0;
                assert(wkt_spells_none(pieces[n - 1], n - 1, number, e));
            }
        }
    }
}

/// Whether a text is `LINESTRING`, brackets, and `inner` between them, white space aside.
pub open spec fn is_linestring(s: Seq<char>, inner: Seq<char>) -> bool {
    exists|gap: Seq<char>| #[trigger]
        all_space(gap) && trimmed(s) == "LINESTRING"@ + gap + seq!['('] + inner + seq![')']
}

proof fn lemma_trimmed_brackets(gap: Seq<char>, u: Seq<char>)
    requires
        all_space(gap),
        u.len() > 0,
        !is_space(u.first()),
        !is_space(u.last()),
    ensures
        trimmed(gap + u) == u,
    decreases gap.len(),
{
    let s = gap + u;
    if gap.len() == 0 {
        assert(s =~= u);
        assert(u[0] == u.first());
    } else {
        assert(s[0] == gap[0]);
        assert(s.skip(1) =~= gap.skip(1) + u);
        assert forall|i: int| 0 <= i < gap.skip(1).len() implies is_space(
            #[trigger] gap.skip(1)[i],
        ) by {
            assert(gap.skip(1)[i] == gap[i + 1]);
        }
        lemma_trimmed_brackets(gap.skip(1), u);
    }
}

/// What stands between the brackets of a line geometry is found just where the text is one.
pub proof fn law_line_geometries_have_brackets(s: Seq<char>)
    ensures
        (match wkt_inner(s) {
            Some(inner) => is_linestring(s, inner),
            None => forall|inner: Seq<char>| !(#[trigger] is_linestring(s, inner)),
        }),
{
    let t = trimmed(s);
    let word = "LINESTRING"@;
    law_trimming_takes_off_white_space(s);
    if let Some(inner) = wkt_inner(s) {
        let rest = t.skip(word.len() as int);
        let u = trimmed(rest);
        law_trimming_takes_off_white_space(rest);
        let (a, b) = choose|a: Seq<char>, b: Seq<char>|
            #![trigger all_space(a), all_space(b)]
            all_space(a) && all_space(b) && rest == a + u + b;
        assert(t =~= word + rest);
        if b.len() > 0 {
            assert(t.last() == b.last());
            assert(is_space(b[b.len() - 1]));
        }
        assert(u =~= seq!['('] + inner + seq![')']);
        assert(t =~= word + a + seq!['('] + inner + seq![')']);
        assert(is_linestring(s, inner));
    } else {
        assert forall|inner: Seq<char>| !(#[trigger] is_linestring(s, inner)) by {
            if is_linestring(s, inner) {
                let gap = choose|gap: Seq<char>| #[trigger]
                    all_space(gap) && t == word + gap + seq!['('] + inner + seq![')'];
                let u = seq!['('] + inner + seq![')'];
                let rest = t.skip(word.len() as int);
                assert(rest =~= gap + u);
                assert(t.subrange(0, word.len() as int) =~= word);
                lemma_trimmed_brackets(gap, u);
            }
        }
    }
}

/// The points of a line geometry are those that the pieces between its commas spell, one for
/// each, longitude first; and a text that is none, or a piece that spells no point, is
/// refused.
pub proof fn law_line_geometries_spell_points<N>(
    s: Seq<char>,
    number: spec_fn(Seq<char>) -> Option<N>,
)
    ensures
        (match wkt_line(s, number) {
            Ok(v) => exists|inner: Seq<char>| #[trigger]
                is_linestring(s, inner) && v.len() == split_commas(inner).len() && forall|i: int|
                    0 <= i < v.len() ==> wkt_spells(
                        split_commas(inner)[i],
                        number,
                        #[trigger] v[i],
                    ),
            Err(e) => {
                ||| e == WktError::NotALinestring && forall|inner: Seq<char>|
                    !(#[trigger] is_linestring(s, inner))
                ||| exists|inner: Seq<char>, i: int|
                    is_linestring(s, inner) && 0 <= i < split_commas(inner).len()
                        && wkt_spells_none(#[trigger] split_commas(inner)[i], i, number, e)
            },
        }),
{
    law_line_geometries_have_brackets(s);
    if let Some(inner) = wkt_inner(s) {
        let pieces = split_commas(inner);
        lemma_wkt_points(pieces, number, pieces.len() as int);
        assert(is_linestring(s, inner));
    }
}

/// Whether a key stands for another id than the one given.
pub open spec fn is_taken(m: Map<u128, Seq<char>>, key: Seq<u8>, id: Seq<char>) -> bool {
    m.contains_key(id_number(key)) && m[id_number(key)] != id
}

/// The keys of a row come to stand for its ids, and all others stand for what they stood
/// for, unless one of them stands for another id already, or the row has one key for two
/// different nodes.
pub proof fn law_keys_come_to_stand_for_their_ids(k: KeyModel, row: CanonicalRow, other: u128)
    ensures
        ({
            let (m, collision) = registered(k, row);
            let parent = id_number(row.parent_key@);
            let start = id_number(row.start_key@);
            let end = id_number(row.end_key@);
            &&& collision <==> {
                ||| is_taken(k.edges, row.parent_key@, row.id@)
                ||| is_taken(k.nodes, row.start_key@, row.start_node_id@)
                ||| is_taken(k.nodes, row.end_key@, row.end_node_id@)
                ||| start == end && row.start_node_id@ != row.end_node_id@
            }
            &&& !collision ==> {
                &&& m.edges.contains_key(parent) && m.edges[parent] == row.id@
                &&& m.nodes.contains_key(start) && m.nodes[start] == row.start_node_id@
                &&& m.nodes.contains_key(end) && m.nodes[end] == row.end_node_id@
            }
            &&& other != parent ==> (m.edges.contains_key(other) <==> k.edges.contains_key(other))
                && (k.edges.contains_key(other) ==> m.edges[other] == k.edges[other])
            &&& other != start && other != end ==> (m.nodes.contains_key(other)
                <==> k.nodes.contains_key(other)) && (k.nodes.contains_key(other)
                ==> m.nodes[other] == k.nodes[other])
        }),
{
}

/// The keys of a refused row stand for its ids as far as they come before the one that stands
/// for another id already: the key of the edge, then that of its start, then that of its end.
pub proof fn law_refused_rows_leave_the_keys_before(k: KeyModel, row: CanonicalRow)
    requires
        registered(k, row).1,
    ensures
        ({
            let m = registered(k, row).0;
            let edge_taken = is_taken(k.edges, row.parent_key@, row.id@);
            let start_taken = is_taken(k.nodes, row.start_key@, row.start_node_id@);
            &&& edge_taken ==> m == k
            &&& !edge_taken ==> m.edges == k.edges.insert(id_number(row.parent_key@), row.id@)
            &&& start_taken ==> m.nodes == k.nodes
            &&& !edge_taken && !start_taken ==> m.nodes == k.nodes.insert(
                id_number(row.start_key@),
                row.start_node_id@,
            )
        }),
{
}

/// Whether a report says that a key was to stand for an id but stands for another.
pub open spec fn reports(c: KeyCollision, key: Seq<u8>, id: Seq<char>) -> bool {
    c.id@ == id && c.existing@ != id && c.key@ == hex_of(key)
}

/// A collision is reported of a key of the row: with the id that it was to stand for and the
/// other one that it stands for.
pub proof fn law_collisions_are_reported(k: KeyModel, row: CanonicalRow, c: KeyCollision)
    requires
        registered(k, row).1,
        reported(k, row, c),
    ensures
        ({
            ||| reports(c, row.parent_key@, row.id@) && c.existing@ == k.edges[id_number(
                row.parent_key@,
            )]
            ||| reports(c, row.start_key@, row.start_node_id@) && c.existing@
                == k.nodes[id_number(row.start_key@)]
            ||| reports(c, row.end_key@, row.end_node_id@) && (c.existing@ == k.nodes[id_number(
                row.end_key@,
            )] || c.existing@ == row.start_node_id@)
        }),
{
}

/// Whether `c` is the hexadecimal digit for `n`, a small letter where it is a letter.
pub open spec fn is_hex(c: char, n: int) -> bool {
    ||| 0 <= n < 10 && c as int == 48 + n
    ||| 10 <= n < 16 && c as int == 97 + n - 10
}

/// A key is written with two hexadecimal digits for each byte, the high one first.
pub proof fn law_keys_are_spelled_in_hex(b: Seq<u8>, i: int)
    requires
        0 <= i < b.len(),
    ensures
        hex_of(b).len() == 2 * b.len(),
        exists|high: int, low: int|
            #![trigger is_hex(hex_of(b)[2 * i], high), is_hex(hex_of(b)[2 * i + 1], low)]
            is_hex(hex_of(b)[2 * i], high) && is_hex(hex_of(b)[2 * i + 1], low) && b[i] == 16 * high
                + low,
{
    let high = b[i] as int / 16;
    let low = b[i] as int % 16;
    assert(is_hex(hex_of(b)[2 * i], high));
    assert(is_hex(hex_of(b)[2 * i + 1], low));
}

/// A row that is accepted has the direction that its word stands for: 0 for `both`, 1 for
/// `fwd`, 2 for `rev`, and no other word; and at least two points, those of its geometry.
pub proof fn law_accepted_rows_are_in_order<N>(
    collision: bool,
    row: CanonicalRow,
    line: Result<Seq<(N, N)>, WktError>,
    r: Result<(u8, Vec<(N, N)>), CanonicalError>,
)
    requires
        checked(collision, row, line, r),
        r is Ok,
    ensures
        !collision,
        line == Ok::<Seq<(N, N)>, WktError>(r->Ok_0.1@),
        r->Ok_0.1@.len() >= 2,
        row.direction@ == "both"@ && r->Ok_0.0 == 0 || row.direction@ == "fwd"@ && r->Ok_0.0 == 1
            || row.direction@ == "rev"@ && r->Ok_0.0 == 2,
{
}

/// The flags of a restriction hold the first heading in their lowest two bits, the second in
/// the next two, and nothing above.
pub proof fn law_flags_hold_both_headings(from: u8, to: u8)
    requires
        from < 4,
        to < 4,
    ensures
        flags_of(from, to) % 4 == from,
        flags_of(from, to) / 4 == to,
{
}

/// A row that is refused is refused for what is wrong with it: a collision before anything
/// else, then a word that is no direction, then a geometry that cannot be read, then one of
/// fewer than two points.
pub proof fn law_refused_rows_are_out_of_order<N>(
    collision: bool,
    row: CanonicalRow,
    line: Result<Seq<(N, N)>, WktError>,
    r: Result<(u8, Vec<(N, N)>), CanonicalError>,
)
    requires
        checked(collision, row, line, r),
    ensures
        ({
            let word = row.direction@;
            let known = word == "both"@ || word == "fwd"@ || word == "rev"@;
            match r {
                Err(CanonicalError::Collision(_)) => collision,
                Err(CanonicalError::BadDirection(w)) => !collision && !known && w@ == word,
                Err(CanonicalError::BadGeometry(e)) => !collision && known && line == Err::<
                    Seq<(N, N)>,
                    WktError,
                >(e),
                Err(CanonicalError::TooFewPoints) => !collision && known && line is Ok
                    && line->Ok_0.len() < 2,
                Err(CanonicalError::Degenerate) => false,
                Ok(_) => true,
            }
        }),
{
}

/// A word stands for a heading just where it is one of the three: `both` for 0, `fwd` for 1,
/// `rev` for 2; and for a direction in the same way.
pub proof fn law_words_stand_for_directions(word: Seq<char>, code: u8)
    ensures
        heading_code(word) == Some(code) <==> {
            ||| word == "both"@ && code == 0
            ||| word == "fwd"@ && code == 1
            ||| word == "rev"@ && code == 2
        },
        direction_code(word) == heading_code(word),
{
    reveal_strlit("both");
    reveal_strlit("fwd");
    reveal_strlit("rev");
    assert("fwd"@[0] != "rev"@[0]);
    assert("both"@.len() != "fwd"@.len());
}

} // verus!
