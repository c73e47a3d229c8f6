//! Ingestion of canonical edge tables: the vocabulary of directions and headings,
//! line geometries as text, and the guard against colliding keys.
use std::collections::HashMap;
use vstd::prelude::*;
use vstd::slice::slice_subrange;

use crate::extract::{
    edge_models, edge_rows, new_nodes, node_models, EdgeEnd, EdgeRows, Extractor, MeasuredEdge,
};
use crate::lowmem_tile::{
    law_collinear_removal_keeps_the_ends, low8, low_u8, remove_collinear_lm, without_collinear,
};
use crate::oracle::{lemma_text_answer, settled_on_text, text_answer};
use crate::scan::{pieces_of, split_at_commas, split_commas, trim, trimmed, words, words_of};
use crate::text::{chars_of, same_text, text_from};
use crate::tile_writer::{blob_to_id, id_key, id_number, ElementId};

verus! {

/// A restriction that holds whichever way a segment is driven.
pub const HEADING_ANY: u8 = 0;

/// A restriction that holds for driving along a segment's geometry.
pub const HEADING_FORWARD: u8 = 1;

/// A restriction that holds for driving against a segment's geometry.
pub const HEADING_BACKWARD: u8 = 2;

/// The direction code of a word: both 0, forward 1, backward 2.
pub open spec fn direction_code(word: Seq<char>) -> Option<u8> {
    if word == "both"@ {
        Some(0u8)
    } else if word == "fwd"@ {
        Some(1u8)
    } else if word == "rev"@ {
        Some(2u8)
    } else {
        None
    }
}

/// The code of a direction word; any other word is handed back as the error.
pub fn map_direction(direction: &str) -> (r: Result<u8, String>)
    ensures
        (match r {
            Ok(code) => direction_code(direction@) == Some(code),
            Err(word) => direction_code(direction@) is None && word@ == direction@,
        }),
{
    proof {
        reveal_strlit("both");
        reveal_strlit("fwd");
        reveal_strlit("rev");
        assert("fwd"@[0] != "rev"@[0]);
    }
    if same_text(direction, "both") {
        Ok(0)
    } else if same_text(direction, "fwd") {
        Ok(1)
    } else if same_text(direction, "rev") {
        Ok(2)
    } else {
        Err(direction.to_owned())
    }
}

/// The heading bits of a word.
pub open spec fn heading_code(word: Seq<char>) -> Option<u8> {
    if word == "both"@ {
        Some(HEADING_ANY)
    } else if word == "fwd"@ {
        Some(HEADING_FORWARD)
    } else if word == "rev"@ {
        Some(HEADING_BACKWARD)
    } else {
        None
    }
}

/// The bits of a heading word; any other word is handed back as the error.
pub fn map_heading(heading: &str) -> (r: Result<u8, String>)
    ensures
        (match r {
            Ok(code) => heading_code(heading@) == Some(code),
            Err(word) => heading_code(heading@) is None && word@ == heading@,
        }),
{
    if same_text(heading, "both") {
        Ok(HEADING_ANY)
    } else if same_text(heading, "fwd") {
        Ok(HEADING_FORWARD)
    } else if same_text(heading, "rev") {
        Ok(HEADING_BACKWARD)
    } else {
        Err(heading.to_owned())
    }
}

/// Why a text is no line geometry. The number is that of the offending point.
#[derive(Debug, Clone, Copy, PartialEq, Eq, Structural)]
pub enum WktError {
    NotALinestring,
    MissingLongitude(usize),
    BadLongitude(usize),
    MissingLatitude(usize),
    BadLatitude(usize),
}

/// What stands between the brackets of `LINESTRING ( .. )`.
pub open spec fn wkt_inner(s: Seq<char>) -> Option<Seq<char>> {
    let t = trimmed(s);
    let word = "LINESTRING"@;
    if !word.is_prefix_of(t) {
        None
    } else {
        let u = trimmed(t.skip(word.len() as int));
        if u.len() >= 2 && u[0] == '(' && u.last() == ')' {
            Some(u.subrange(1, u.len() - 1))
        } else {
            None
        }
    }
}

/// The point that a piece of text spells: two numbers, and anything after them.
pub open spec fn wkt_point<N>(
    piece: Seq<char>,
    i: int,
    number: spec_fn(Seq<char>) -> Option<N>,
) -> Result<(N, N), WktError> {
    let w = words_of(trimmed(piece));
    if w.len() < 1 {
        Err(WktError::MissingLongitude(i as usize))
    } else if number(w[0]) is None {
        Err(WktError::BadLongitude(i as usize))
    } else if w.len() < 2 {
        Err(WktError::MissingLatitude(i as usize))
    } else if number(w[1]) is None {
        Err(WktError::BadLatitude(i as usize))
    } else {
        Ok((number(w[0])->Some_0, number(w[1])->Some_0))
    }
}

/// The points that the first `n` pieces spell, or what is wrong with the first bad
/// one.
pub open spec fn wkt_points<N>(
    pieces: Seq<Seq<char>>,
    number: spec_fn(Seq<char>) -> Option<N>,
    n: int,
) -> Result<Seq<(N, N)>, WktError>
    decreases n,
{
    if n <= 0 {
        Ok(Seq::empty())
    } else {
        match wkt_points(pieces, number, n - 1) {
            Err(e) => Err(e),
            Ok(v) => match wkt_point(pieces[n - 1], n - 1, number) {
                Err(e) => Err(e),
                Ok(p) => Ok(v.push(p)),
            },
        }
    }
}

/// The points of a line geometry.
pub open spec fn wkt_line<N>(s: Seq<char>, number: spec_fn(Seq<char>) -> Option<N>) -> Result<
    Seq<(N, N)>,
    WktError,
> {
    match wkt_inner(s) {
        None => Err(WktError::NotALinestring),
        Some(inner) => wkt_points(
            split_commas(inner),
            number,
            split_commas(inner).len() as int,
        ),
    }
}

proof fn lemma_points_fail<N>(
    pieces: Seq<Seq<char>>,
    number: spec_fn(Seq<char>) -> Option<N>,
    k: int,
    n: int,
)
    requires
        0 <= k <= n,
        wkt_points(pieces, number, k) is Err,
    ensures
        wkt_points(pieces, number, n) == wkt_points(pieces, number, k),
    decreases n - k,
{
    if k < n {
        lemma_points_fail(pieces, number, k, n - 1);
    }
}

fn inner_of(s: &[char]) -> (r: Option<&[char]>)
    ensures
        (match r {
            Some(t) => wkt_inner(s@) == Some(t@),
            None => wkt_inner(s@) is None,
        }),
{
    let t: &[char] = trim(s);
    let word: Vec<char> = chars_of("LINESTRING");
    if t.len() < word.len() {
        return None;
    }
    let mut i: usize = 0;
    while i < word.len()
        invariant
            i <= word@.len() <= t@.len(),
            t@ == trimmed(s@),
            word@ == "LINESTRING"@,
            forall|k: int| 0 <= k < i ==> word@[k] == t@[k],
        decreases word@.len() - i,
    {
        if word[i] != t[i] {
            assert(t@.subrange(0, word@.len() as int)[i as int] == t@[i as int]);
            return None;
        }
        i += 1;
    }
    assert(word@ =~= t@.subrange(0, word@.len() as int));
    let rest: &[char] = slice_subrange(t, word.len(), t.len());
    assert(rest@ =~= t@.skip(word@.len() as int));
    let u: &[char] = trim(rest);
    if u.len() >= 2 && u[0] == '(' && u[u.len() - 1] == ')' {
        Some(slice_subrange(u, 1, u.len() - 1))
    } else {
        None
    }
}

fn read_point<N: Copy, F: Fn(&str) -> Option<N>>(piece: &[char], i: usize, number: &F) -> (r: Result<
    (N, N),
    WktError,
>)
    requires
        forall|s: &str| call_requires(*number, (s,)),
    ensures
        settled_on_text(*number) ==> r == wkt_point(
            piece@,
            i as int,
            |t: Seq<char>| text_answer(*number, t),
        ),
        r != Err::<(N, N), WktError>(WktError::NotALinestring),
{
    let w: Vec<Vec<char>> = words(trim(piece));
    if w.len() < 1 {
        return Err(WktError::MissingLongitude(i));
    }
    assert(w@[0]@ == pieces_of(w@)[0]);
    let first: String = text_from(w[0].as_slice());
    let first: &str = first.as_str();
    let a: Option<N> = number(first);
    proof {
        lemma_text_answer(*number, first, a);
    }
    let lon: N = match a {
        Some(v) => v,
        None => {
            return Err(WktError::BadLongitude(i));
        },
    };
    if w.len() < 2 {
        return Err(WktError::MissingLatitude(i));
    }
    assert(w@[1]@ == pieces_of(w@)[1]);
    let second: String = text_from(w[1].as_slice());
    let second: &str = second.as_str();
    let b: Option<N> = number(second);
    proof {
        lemma_text_answer(*number, second, b);
    }
    match b {
        Some(lat) => Ok((lon, lat)),
        None => Err(WktError::BadLatitude(i)),
    }
}

/// Read a line geometry `LINESTRING (lon lat, lon lat, ..)`. `number` reads one
/// number.
pub fn parse_wkt_linestring<N: Copy, F: Fn(&str) -> Option<N>>(s: &str, number: F) -> (r: Result<
    Vec<(N, N)>,
    WktError,
>)
    requires
        forall|s: &str| call_requires(number, (s,)),
    ensures
        (r matches Err(e) && e == WktError::NotALinestring) <==> wkt_inner(s@) is None,
        settled_on_text(number) ==> (match r {
            Ok(v) => wkt_line(s@, |t: Seq<char>| text_answer(number, t)) == Ok::<
                Seq<(N, N)>,
                WktError,
            >(v@),
            Err(e) => wkt_line(s@, |t: Seq<char>| text_answer(number, t)) == Err::<
                Seq<(N, N)>,
                WktError,
            >(e),
        }),
{
    let all: Vec<char> = chars_of(s);
    let inner: &[char] = match inner_of(all.as_slice()) {
        Some(t) => t,
        None => {
            return Err(WktError::NotALinestring);
        },
    };
    let pieces: Vec<Vec<char>> = split_at_commas(inner);
    let ghost ask = |t: Seq<char>| text_answer(number, t);
    let ghost parts = pieces_of(pieces@);
    let mut out: Vec<(N, N)> = Vec::new();
    let mut i: usize = 0;
    while i < pieces.len()
        invariant
            i <= pieces@.len(),
            forall|s: &str| call_requires(number, (s,)),
            ask == (|t: Seq<char>| text_answer(number, t)),
            parts == pieces_of(pieces@),
            wkt_inner(s@) is Some,
            parts == split_commas(wkt_inner(s@)->Some_0),
            settled_on_text(number) ==> wkt_points(parts, ask, i as int) == Ok::<
                Seq<(N, N)>,
                WktError,
            >(out@),
        decreases pieces@.len() - i,
    {
        assert(pieces@[i as int]@ == parts[i as int]);
        match read_point(pieces[i].as_slice(), i, &number) {
            Ok(p) => {
                out.push(p);
            },
            Err(e) => {
                proof {
                    if settled_on_text(number) {
                        lemma_points_fail(parts, ask, i + 1, parts.len() as int);
                    }
                }
                return Err(e);
            },
        }
        i += 1;
    }
    Ok(out)
}

/// The lower-case hexadecimal digit for a number below sixteen.
pub open spec fn hex_digit(n: int) -> char {
    if n < 10 {
        (48 + n) as char
    } else {
        (87 + n) as char
    }
}

/// Two lower-case hexadecimal digits for each byte, the high one first.
pub open spec fn hex_of(b: Seq<u8>) -> Seq<char> {
    Seq::new(
        2 * b.len(),
        |i: int|
            if i % 2 == 0 {
                hex_digit(b[i / 2] as int / 16)
            } else {
                hex_digit(b[i / 2] as int % 16)
            },
    )
}

/// Calls `hex::encode`.
///
/// Claimed of it: the result has two lower-case hexadecimal digits for each byte,
/// in the order of the bytes and the high digit first.
#[verifier::external_body]
fn hex_text(key: &ElementId) -> (r: String)
    ensures
        r@ == hex_of(key@),
{
    hex::encode(key)
}

/// Two producer ids that were given one internal key.
#[derive(Debug)]
pub struct KeyCollision {
    pub existing: String,
    pub id: String,
    /// The key in hexadecimal.
    pub key: String,
}

/// Remembers which producer id each internal key stands for, so that two different
/// ids are never merged under one key.
#[derive(Debug)]
pub struct KeyRegistry {
    ids: HashMap<u128, String>,
}

impl View for KeyRegistry {
    type V = Map<u128, Seq<char>>;

    closed spec fn view(&self) -> Map<u128, Seq<char>> {
        self.ids@.map_values(|s: String| s@)
    }
}

impl Default for KeyRegistry {
    fn default() -> (r: KeyRegistry)
        ensures
            r@ == Map::<u128, Seq<char>>::empty(),
    {
        KeyRegistry::new()
    }
}

/// Whether `key` may stand for `id`: it does already, or it stands for nothing yet.
pub open spec fn key_free(m: Map<u128, Seq<char>>, key: Seq<u8>, id: Seq<char>) -> bool {
    m.contains_key(id_number(key)) ==> m[id_number(key)] == id
}

impl KeyRegistry {
    /// A registry without keys.
    pub fn new() -> (r: KeyRegistry)
        ensures
            r@ == Map::<u128, Seq<char>>::empty(),
    {
        broadcast use vstd::std_specs::hash::group_hash_axioms;

        let r = KeyRegistry { ids: HashMap::new() };
        assert(r@ =~= Map::<u128, Seq<char>>::empty());
        r
    }

    /// Let `key` stand for `id`, unless it stands for another id.
    pub fn check(&mut self, key: ElementId, id: &str) -> (r: Result<(), KeyCollision>)
        ensures
            r is Ok <==> key_free(old(self)@, key@, id@),
            r is Ok ==> final(self)@ == old(self)@.insert(id_number(key@), id@),
            r is Err ==> final(self)@ == old(self)@,
            r matches Err(c) ==> c.existing@ == old(self)@[id_number(key@)] && c.id@ == id@
                && c.key@ == hex_of(key@),
    {
        broadcast use vstd::std_specs::hash::group_hash_axioms;

        let number: u128 = id_key(&key);
        match self.ids.get(&number) {
            Some(existing) => {
                if !same_text(existing.as_str(), id) {
                    return Err(
                        KeyCollision {
                            existing: existing.clone(),
                            id: id.to_owned(),
                            key: hex_text(&key),
                        },
                    );
                }
            },
            None => {},
        }
        self.ids.insert(number, id.to_owned());
        assert(self@ =~= old(self)@.insert(number, id@));
        Ok(())
    }
}

/// A key that stands for an id goes on standing for it, whatever is checked later:
/// no two different ids ever share a key.
pub proof fn law_keys_never_change_hands(
    m: Map<u128, Seq<char>>,
    key: ElementId,
    id: Seq<char>,
    other: ElementId,
    other_id: Seq<char>,
)
    requires
        m.contains_key(id_number(key@)),
        m[id_number(key@)] == id,
        key_free(m, other@, other_id),
    ensures
        m.insert(id_number(other@), other_id)[id_number(key@)] == id,
        key_free(m.insert(id_number(other@), other_id), key@, id),
        forall|t: Seq<char>|
            t != id ==> !(#[trigger] key_free(m.insert(id_number(other@), other_id), key@, t)),
{
}

/// The key that a blob of sixteen bytes holds.
pub fn blob_to_key(blob: &[u8]) -> (key: ElementId)
    requires
        blob@.len() == 16,
    ensures
        key@ == blob@,
{
    blob_to_id(blob)
}

/// One row of the canonical edge table. The keys are sixteen-byte digests of the
/// three ids.
#[derive(Debug)]
pub struct CanonicalRow {
    pub id: String,
    pub geometry: String,
    pub frc: i64,
    pub fow: i64,
    pub direction: String,
    pub start_node_id: String,
    pub end_node_id: String,
    pub parent_key: ElementId,
    pub start_key: ElementId,
    pub end_key: ElementId,
}

/// Why a row of the canonical edge table is refused.
#[derive(Debug)]
pub enum CanonicalError {
    /// Two ids have one key.
    Collision(KeyCollision),
    /// The direction is none of the three words.
    BadDirection(String),
    /// The geometry is no line.
    BadGeometry(WktError),
    /// The line has fewer than two points.
    TooFewPoints,
    /// Fewer than two points are left once collinear ones are dropped.
    Degenerate,
}

/// The producer ids that the keys of edges and nodes stand for.
#[verifier::ext_equal]
pub struct KeyModel {
    pub edges: Map<u128, Seq<char>>,
    pub nodes: Map<u128, Seq<char>>,
}

/// The keys after those of a row were registered one by one, up to the first that
/// stands for another id already; and whether there is such a one.
pub open spec fn registered(k: KeyModel, row: CanonicalRow) -> (KeyModel, bool) {
    let edges = k.edges.insert(id_number(row.parent_key@), row.id@);
    let one = k.nodes.insert(id_number(row.start_key@), row.start_node_id@);
    let two = one.insert(id_number(row.end_key@), row.end_node_id@);
    if !key_free(k.edges, row.parent_key@, row.id@) {
        (k, true)
    } else if !key_free(k.nodes, row.start_key@, row.start_node_id@) {
        (KeyModel { edges, ..k }, true)
    } else if !key_free(one, row.end_key@, row.end_node_id@) {
        (KeyModel { edges, nodes: one }, true)
    } else {
        (KeyModel { edges, nodes: two }, false)
    }
}

/// Whether `c` says that a key stands for another id than `id`.
pub open spec fn collides(
    m: Map<u128, Seq<char>>,
    key: Seq<u8>,
    id: Seq<char>,
    c: KeyCollision,
) -> bool {
    &&& c.existing@ == m[id_number(key)]
    &&& c.id@ == id
    &&& c.key@ == hex_of(key)
}

/// Whether `c` is the report on the first key of a row that stands for another id already.
pub open spec fn reported(k: KeyModel, row: CanonicalRow, c: KeyCollision) -> bool {
    let one = k.nodes.insert(id_number(row.start_key@), row.start_node_id@);
    if !key_free(k.edges, row.parent_key@, row.id@) {
        collides(k.edges, row.parent_key@, row.id@, c)
    } else if !key_free(k.nodes, row.start_key@, row.start_node_id@) {
        collides(k.nodes, row.start_key@, row.start_node_id@, c)
    } else {
        collides(one, row.end_key@, row.end_node_id@, c)
    }
}

/// Whether `r` reports a collision.
pub open spec fn is_collision<N>(r: Result<(u8, Vec<(N, N)>), CanonicalError>) -> bool {
    r matches Err(CanonicalError::Collision(_))
}

/// Whether `r` is the verdict on a row whose geometry reads as `line`: a collision
/// comes first, then the direction, then the geometry.
pub open spec fn checked<N>(
    collision: bool,
    row: CanonicalRow,
    line: Result<Seq<(N, N)>, WktError>,
    r: Result<(u8, Vec<(N, N)>), CanonicalError>,
) -> bool {
    if collision {
        is_collision(r)
    } else {
        match direction_code(row.direction@) {
            None => r matches Err(CanonicalError::BadDirection(w)) && w@ == row.direction@,
            Some(code) => match line {
                Err(e) => r matches Err(CanonicalError::BadGeometry(x)) && x == e,
                Ok(points) => if points.len() < 2 {
                    r matches Err(CanonicalError::TooFewPoints)
                } else {
                    r matches Ok(found) && found.0 == code && found.1@ == points
                },
            },
        }
    }
}

/// The line of a row on the grid, with the tiles of its two ends.
#[derive(Debug)]
pub struct GridLine {
    pub points: Vec<(i32, i32)>,
    pub length_cm: u32,
    /// Tile x, tile y and tile number of the first point.
    pub start_tile: (u32, u32, u64),
    /// Tile x, tile y and tile number of the last point.
    pub end_tile: (u32, u32, u64),
}

/// Reads the canonical edge table row by row.
#[derive(Debug)]
pub struct CanonicalEdges {
    edge_ids: KeyRegistry,
    node_ids: KeyRegistry,
    out: Extractor,
}

/// The edge that a checked row stores.
pub open spec fn canonical_edge(row: CanonicalRow, direction: u8, line: GridLine, e: MeasuredEdge) -> bool {
    &&& e.parent_id == row.parent_key
    &&& e.stable_id@ == row.id@
    &&& e.geom@ == without_collinear(line.points@)
    &&& e.length_cm == line.length_cm
    &&& e.frc == low8(row.frc as int)
    &&& e.fow == low8(row.fow as int)
    &&& e.direction == direction
    &&& e.start.node_id == row.start_key
    &&& e.start.stable_id@ == row.start_node_id@
    &&& (e.start.lon_e7, e.start.lat_e7) == line.points@.first()
    &&& (e.start.tile_x, e.start.tile_y, e.start.tile_id) == line.start_tile
    &&& e.end.node_id == row.end_key
    &&& e.end.stable_id@ == row.end_node_id@
    &&& (e.end.lon_e7, e.end.lat_e7) == line.points@.last()
    &&& (e.end.tile_x, e.end.tile_y, e.end.tile_id) == line.end_tile
}

impl CanonicalEdges {
    /// The producer ids that keys stand for.
    pub closed spec fn keys(self) -> KeyModel {
        KeyModel { edges: self.edge_ids@, nodes: self.node_ids@ }
    }

    /// The nodes stored so far.
    pub closed spec fn seen_nodes(self) -> Set<ElementId> {
        self.out.seen_nodes()
    }

    /// The number of the next edge.
    pub closed spec fn next_edge(self) -> u32 {
        self.out.next_edge()
    }

    /// A reader that has read nothing.
    pub fn new() -> (c: CanonicalEdges)
        ensures
            c.keys() == (KeyModel { edges: Map::empty(), nodes: Map::empty() }),
            c.seen_nodes() == Set::<ElementId>::empty(),
            c.next_edge() == 0,
    {
        CanonicalEdges {
            edge_ids: KeyRegistry::new(),
            node_ids: KeyRegistry::new(),
            out: Extractor::new(),
        }
    }

    /// How many edges were stored.
    pub fn edge_count(&self) -> (n: u32)
        ensures
            n == self.next_edge(),
    {
        self.out.edge_count()
    }

    /// Register the keys of a row.
    fn register(&mut self, row: &CanonicalRow) -> (r: Result<(), KeyCollision>)
        ensures
            (final(self).keys(), r is Err) == registered(old(self).keys(), *row),
            r matches Err(c) ==> reported(old(self).keys(), *row, c),
            final(self).seen_nodes() == old(self).seen_nodes(),
            final(self).next_edge() == old(self).next_edge(),
    {
        match self.edge_ids.check(row.parent_key, row.id.as_str()) {
            Err(c) => {
                return Err(c);
            },
            Ok(_) => {},
        }
        match self.node_ids.check(row.start_key, row.start_node_id.as_str()) {
            Err(c) => {
                return Err(c);
            },
            Ok(_) => {},
        }
        self.node_ids.check(row.end_key, row.end_node_id.as_str())
    }

    /// Check a row: its keys, its direction and its geometry, in this order. Returns
    /// the direction code and the points. `number` reads one number.
    pub fn check_row<N: Copy, F: Fn(&str) -> Option<N>>(
        &mut self,
        row: &CanonicalRow,
        number: F,
    ) -> (r: Result<(u8, Vec<(N, N)>), CanonicalError>)
        requires
            forall|s: &str| call_requires(number, (s,)),
        ensures
            final(self).keys() == registered(old(self).keys(), *row).0,
            final(self).seen_nodes() == old(self).seen_nodes(),
            final(self).next_edge() == old(self).next_edge(),
            registered(old(self).keys(), *row).1 <==> is_collision(r),
            r matches Err(CanonicalError::Collision(c)) ==> reported(old(self).keys(), *row, c),
            settled_on_text(number) ==> checked(
                registered(old(self).keys(), *row).1,
                *row,
                wkt_line(row.geometry@, |t: Seq<char>| text_answer(number, t)),
                r,
            ),
    {
        match self.register(row) {
            Err(c) => {
                return Err(CanonicalError::Collision(c));
            },
            Ok(_) => {},
        }
        let direction: u8 = match map_direction(row.direction.as_str()) {
            Ok(code) => code,
            Err(word) => {
                return Err(CanonicalError::BadDirection(word));
            },
        };
        match parse_wkt_linestring(row.geometry.as_str(), number) {
            Err(e) => Err(CanonicalError::BadGeometry(e)),
            Ok(points) => if points.len() < 2 {
                Err(CanonicalError::TooFewPoints)
            } else {
                Ok((direction, points))
            },
        }
    }

    /// The rows to store for a checked row whose line was put on the grid.
    pub fn store_row(&mut self, row: CanonicalRow, direction: u8, line: GridLine) -> (r: Result<
        EdgeRows,
        CanonicalError,
    >)
        requires
            old(self).next_edge() < u32::MAX,
        ensures
            final(self).keys() == old(self).keys(),
            line.points@.len() < 2 <==> r is Err,
            r is Err ==> r == Err::<EdgeRows, CanonicalError>(CanonicalError::Degenerate)
                && final(self).seen_nodes() == old(self).seen_nodes() && final(self).next_edge()
                == old(self).next_edge(),
            r matches Ok(rows) ==> {
                &&& final(self).next_edge() == old(self).next_edge() + 1
                &&& final(self).seen_nodes() == old(self).seen_nodes().insert(
                    row.start_key,
                ).insert(row.end_key)
                &&& exists|e: MeasuredEdge|
                    #![trigger edge_rows(e, old(self).next_edge())]
                    {
                        &&& canonical_edge(row, direction, line, e)
                        &&& node_models(rows.nodes@) == new_nodes(old(self).seen_nodes(), e)
                        &&& edge_models(rows.edges@) == edge_rows(e, old(self).next_edge())
                    }
            },
    {
        if line.points.len() < 2 {
            return Err(CanonicalError::Degenerate);
        }
        let first: (i32, i32) = line.points[0];
        let last: (i32, i32) = line.points[line.points.len() - 1];
        proof {
            law_collinear_removal_keeps_the_ends(line.points@);
        }
        let ghost points = line.points@;
        let geom: Vec<(i32, i32)> = remove_collinear_lm(line.points);
        let e = MeasuredEdge {
            parent_id: row.parent_key,
            stable_id: row.id,
            geom,
            length_cm: line.length_cm,
            frc: low_u8(row.frc),
            fow: low_u8(row.fow),
            direction,
            start: EdgeEnd {
                node_id: row.start_key,
                stable_id: row.start_node_id,
                lon_e7: first.0,
                lat_e7: first.1,
                tile_x: line.start_tile.0,
                tile_y: line.start_tile.1,
                tile_id: line.start_tile.2,
            },
            end: EdgeEnd {
                node_id: row.end_key,
                stable_id: row.end_node_id,
                lon_e7: last.0,
                lat_e7: last.1,
                tile_x: line.end_tile.0,
                tile_y: line.end_tile.1,
                tile_id: line.end_tile.2,
            },
        };
        assert(canonical_edge(row, direction, line, e));
        Ok(self.out.add_edge(&e))
    }
}

/// The flags of a restriction between two headings: the first in bits 0-1, the
/// second in bits 2-3.
pub open spec fn flags_of(from: u8, to: u8) -> u8 {
    (from % 4 + 4 * (to % 4)) as u8
}

/// The flags of a restriction between two heading words; the first word that is no
/// heading is handed back as the error.
pub fn restriction_flags(from_heading: &str, to_heading: &str) -> (r: Result<u8, String>)
    ensures
        (match r {
            Ok(flags) => heading_code(from_heading@) is Some && heading_code(to_heading@) is Some
                && flags == flags_of(
                heading_code(from_heading@)->Some_0,
                heading_code(to_heading@)->Some_0,
            ),
            Err(word) => if heading_code(from_heading@) is None {
                word@ == from_heading@
            } else {
                heading_code(to_heading@) is None && word@ == to_heading@
            },
        }),
{
    let from: u8 = match map_heading(from_heading) {
        Ok(code) => code,
        Err(word) => {
            return Err(word);
        },
    };
    let to: u8 = match map_heading(to_heading) {
        Ok(code) => code,
        Err(word) => {
            return Err(word);
        },
    };
    Ok(from % 4 + 4 * (to % 4))
}

} // verus!
