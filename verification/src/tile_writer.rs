//! Writing tile payloads.
use std::collections::HashMap;
use vstd::prelude::*;
use vstd::utf8::encode_utf8;

use crate::bytes::{
    i32_at, i32_bytes, i32_le, lemma_i32_round_trip, lemma_u128_injective, push_all, push_i32,
    push_u16, push_u32, push_zeros, u128_at, u128_le, u16_bytes, u32_bytes,
};
use crate::joined::{joined, lemma_joined_even, lemma_joined_piece, start_of};
use crate::tile_format::magic;

verus! {

/// A sixteen-byte internal identifier of a node or an edge.
pub type ElementId = [u8; 16];

/// The number by which an identifier is looked up.
pub open spec fn id_number(id: Seq<u8>) -> u128 {
    u128_at(id, 0) as u128
}

/// The number by which an identifier is looked up.
pub fn id_key(id: &ElementId) -> (n: u128)
    ensures
        n == id_number(id@),
{
    u128_le(id.as_slice(), 0)
}

/// An edge on its way into a tile.
#[derive(Debug)]
pub struct LmEdge {
    pub edge_idx: u32,
    /// The exact text to persist in the tile's string pool.
    pub stable_id: String,
    pub start_id: ElementId,
    pub end_id: ElementId,
    pub geom: Vec<(i32, i32)>,
    pub length_cm: u32,
    pub frc: u8,
    pub fow: u8,
    pub direction: u8,
}

/// A turn restriction between two segments of one tile, in local indices.
#[derive(Debug, Clone, Copy, PartialEq, Eq, Structural)]
pub struct LmIntraTile {
    pub from_seg: u32,
    pub via_node: u32,
    pub to_seg: u32,
    pub flags: u8,
}

/// A turn restriction of which a segment may lie in another tile.
#[derive(Debug)]
pub struct LmCrossTile {
    pub from_id: String,
    pub via_node_local: u32,
    pub to_id: String,
    pub flags: u8,
}

/// A segment as a payload holds it.
#[verifier::ext_equal]
pub struct SegOut {
    pub start: u32,
    pub end: u32,
    pub geom: Seq<(i32, i32)>,
    pub length_cm: u32,
    pub attrs: u8,
    pub id: Seq<u8>,
}

/// A node as a payload holds it.
#[verifier::ext_equal]
pub struct NodeOut {
    pub lon: i32,
    pub lat: i32,
    pub id: Seq<u8>,
    pub is_boundary: bool,
}

/// A cross-tile restriction as a payload holds it.
#[verifier::ext_equal]
pub struct CrossOut {
    pub from: Seq<u8>,
    pub via: u32,
    pub to: Seq<u8>,
    pub flags: u8,
}

/// All that a payload holds.
#[verifier::ext_equal]
pub struct TilePlan {
    pub segs: Seq<SegOut>,
    pub nodes: Seq<NodeOut>,
    pub intra: Seq<LmIntraTile>,
    pub cross: Seq<CrossOut>,
}

/// Road class in bits 0-2, form of way in bits 3-5, direction in bits 6-7; higher
/// bits of each are dropped.
pub open spec fn packed_attrs(frc: u8, fow: u8, direction: u8) -> u8 {
    (frc % 8 + 8 * (fow % 8) + 64 * (direction % 4)) as u8
}

/// Pack a segment's attributes into one byte.
pub fn pack_attrs_lm(frc: u8, fow: u8, direction: u8) -> (r: u8)
    ensures
        r == packed_attrs(frc, fow, direction),
{
    frc % 8 + 8 * (fow % 8) + 64 * (direction % 4)
}

/// The part of an identifier that a payload has room for: its first 255 bytes.
pub open spec fn clipped(id: Seq<u8>) -> Seq<u8> {
    if id.len() <= 255 {
        id
    } else {
        id.take(255)
    }
}

/// `n` in four bytes, higher bits dropped.
pub open spec fn low32(n: int) -> u32 {
    (n % 0x1_0000_0000) as u32
}

/// The bytes of a header.
#[verifier::opaque]
pub open spec fn header_record(
    segs: u32,
    nodes: u32,
    restrs: u32,
    verts: u32,
    xrestrs: u32,
    pool: u32,
) -> Seq<u8> {
    magic() + seq![3u8, 0, 0, 0] + u32_bytes(segs) + u32_bytes(nodes) + u32_bytes(restrs)
        + u32_bytes(verts) + u32_bytes(xrestrs) + u32_bytes(pool) + seq![0u8, 0, 0, 0, 0, 0, 0, 0]
}

/// The bytes of a segment record.
#[verifier::opaque]
pub open spec fn seg_record(
    start: u32,
    end: u32,
    first: u32,
    len: u16,
    length_cm: u32,
    attrs: u8,
    id_off: u32,
    id_len: u8,
) -> Seq<u8> {
    u32_bytes(start) + u32_bytes(end) + u32_bytes(first) + u16_bytes(len) + u32_bytes(length_cm)
        + seq![attrs, 0u8] + u32_bytes(id_off) + seq![id_len, 0, 0, 0, 0, 0, 0, 0]
}

/// The bytes of a restriction record.
#[verifier::opaque]
pub open spec fn intra_record(from: u32, via: u32, to: u32, flags: u8) -> Seq<u8> {
    u32_bytes(from) + u32_bytes(via) + u32_bytes(to) + seq![flags, 0u8, 0, 0]
}

/// The bytes of a cross restriction record.
#[verifier::opaque]
pub open spec fn cross_record(
    from_off: u32,
    from_len: u8,
    via: u32,
    to_off: u32,
    to_len: u8,
    flags: u8,
) -> Seq<u8> {
    u32_bytes(from_off) + seq![from_len] + u32_bytes(via) + u32_bytes(to_off) + seq![
        to_len,
        flags,
        0u8,
    ]
}

/// The bytes of a node record.
#[verifier::opaque]
pub open spec fn node_record(lon: i32, lat: i32, id_off: u32, id_len: u8, boundary: bool) -> Seq<
    u8,
> {
    i32_bytes(lon) + i32_bytes(lat) + u32_bytes(id_off) + seq![
        id_len,
        0,
        0,
        0,
        0,
        0,
        0,
        0,
        0,
        0,
        0,
        0,
        if boundary {
            1u8
        } else {
            0u8
        },
        0,
        0,
        0,
    ]
}

/// A header has 40 bytes.
pub broadcast proof fn lemma_header_record_len(
    segs: u32,
    nodes: u32,
    restrs: u32,
    verts: u32,
    xrestrs: u32,
    pool: u32,
)
    ensures
        #[trigger] header_record(segs, nodes, restrs, verts, xrestrs, pool).len() == 40,
{
    reveal(header_record);
}

/// A segment record has 32 bytes.
pub broadcast proof fn lemma_seg_record_len(
    start: u32,
    end: u32,
    first: u32,
    len: u16,
    length_cm: u32,
    attrs: u8,
    id_off: u32,
    id_len: u8,
)
    ensures
        #[trigger] seg_record(start, end, first, len, length_cm, attrs, id_off, id_len).len()
            == 32,
{
    reveal(seg_record);
}

/// A node record has 28 bytes.
pub broadcast proof fn lemma_node_record_len(
    lon: i32,
    lat: i32,
    id_off: u32,
    id_len: u8,
    boundary: bool,
)
    ensures
        #[trigger] node_record(lon, lat, id_off, id_len, boundary).len() == 28,
{
    reveal(node_record);
}

/// A restriction record has 16 bytes.
pub broadcast proof fn lemma_intra_record_len(from: u32, via: u32, to: u32, flags: u8)
    ensures
        #[trigger] intra_record(from, via, to, flags).len() == 16,
{
    reveal(intra_record);
}

/// A cross restriction record has 16 bytes.
pub broadcast proof fn lemma_cross_record_len(
    from_off: u32,
    from_len: u8,
    via: u32,
    to_off: u32,
    to_len: u8,
    flags: u8,
)
    ensures
        #[trigger] cross_record(from_off, from_len, via, to_off, to_len, flags).len() == 16,
{
    reveal(cross_record);
}

/// The sizes of the records.
pub broadcast group group_record_lengths {
    lemma_header_record_len,
    lemma_seg_record_len,
    lemma_node_record_len,
    lemma_intra_record_len,
    lemma_cross_record_len,
}

impl TilePlan {
    /// The texts of the segments in the string pool.
    pub open spec fn seg_pieces(self) -> Seq<Seq<u8>> {
        Seq::new(self.segs.len(), |i: int| clipped(self.segs[i].id))
    }

    /// The texts of the nodes in the string pool.
    pub open spec fn node_pieces(self) -> Seq<Seq<u8>> {
        Seq::new(self.nodes.len(), |i: int| clipped(self.nodes[i].id))
    }

    /// The texts of the cross restrictions in the string pool, two for each.
    pub open spec fn cross_pieces(self) -> Seq<Seq<u8>> {
        Seq::new(
            2 * self.cross.len(),
            |i: int|
                if i % 2 == 0 {
                    clipped(self.cross[i / 2].from)
                } else {
                    clipped(self.cross[i / 2].to)
                },
        )
    }

    /// The texts of the string pool.
    pub open spec fn pieces(self) -> Seq<Seq<u8>> {
        self.seg_pieces() + self.node_pieces() + self.cross_pieces()
    }

    /// The vertices of each segment.
    pub open spec fn runs(self) -> Seq<Seq<(i32, i32)>> {
        Seq::new(self.segs.len(), |i: int| self.segs[i].geom)
    }

    pub open spec fn header_bytes(self) -> Seq<u8> {
        header_record(
            low32(self.segs.len() as int),
            low32(self.nodes.len() as int),
            low32(self.intra.len() as int),
            low32(joined(self.runs()).len() as int),
            low32(self.cross.len() as int),
            low32(joined(self.pieces()).len() as int),
        )
    }

    pub open spec fn seg_bytes(self, i: int) -> Seq<u8> {
        let s = self.segs[i];
        seg_record(
            s.start,
            s.end,
            low32(start_of(self.runs(), i)),
            (s.geom.len() % 0x1_0000) as u16,
            s.length_cm,
            s.attrs,
            low32(start_of(self.pieces(), i)),
            clipped(s.id).len() as u8,
        )
    }

    pub open spec fn node_bytes(self, i: int) -> Seq<u8> {
        let n = self.nodes[i];
        node_record(
            n.lon,
            n.lat,
            low32(start_of(self.pieces(), self.segs.len() + i)),
            clipped(n.id).len() as u8,
            n.is_boundary,
        )
    }

    pub open spec fn intra_bytes(self, i: int) -> Seq<u8> {
        let r = self.intra[i];
        intra_record(r.from_seg, r.via_node, r.to_seg, r.flags)
    }

    pub open spec fn cross_bytes(self, i: int) -> Seq<u8> {
        let r = self.cross[i];
        let at = self.segs.len() + self.nodes.len() + 2 * i;
        cross_record(
            low32(start_of(self.pieces(), at)),
            clipped(r.from).len() as u8,
            r.via,
            low32(start_of(self.pieces(), at + 1)),
            clipped(r.to).len() as u8,
            r.flags,
        )
    }

    pub open spec fn seg_section(self) -> Seq<u8> {
        joined(Seq::new(self.segs.len(), |i: int| self.seg_bytes(i)))
    }

    pub open spec fn geom_section(self) -> Seq<u8> {
        vertex_bytes(joined(self.runs()))
    }

    pub open spec fn node_section(self) -> Seq<u8> {
        joined(Seq::new(self.nodes.len(), |i: int| self.node_bytes(i)))
    }

    pub open spec fn intra_section(self) -> Seq<u8> {
        joined(Seq::new(self.intra.len(), |i: int| self.intra_bytes(i)))
    }

    pub open spec fn cross_section(self) -> Seq<u8> {
        joined(Seq::new(self.cross.len(), |i: int| self.cross_bytes(i)))
    }

    /// The payload.
    pub open spec fn bytes(self) -> Seq<u8> {
        self.header_bytes() + self.seg_section() + self.geom_section() + self.node_section()
            + self.intra_section() + self.cross_section() + joined(self.pieces())
    }
}

/// Longitude and latitude of each vertex, four bytes each.
pub open spec fn vertex_bytes(geom: Seq<(i32, i32)>) -> Seq<u8> {
    joined(Seq::new(geom.len(), |i: int| i32_bytes(geom[i].0) + i32_bytes(geom[i].1)))
}

/// Different identifiers have different numbers.
pub proof fn lemma_id_number_injective(a: ElementId, b: ElementId)
    requires
        id_number(a@) == id_number(b@),
    ensures
        a == b,
{
    lemma_u128_injective(a@, b@, 0);
    assert(a@ =~= b@);
    assert(a =~= b);
}

/// Longitude and latitude of each vertex, four little-endian bytes each.
pub fn geom_to_blob(geom: &[(i32, i32)]) -> (b: Vec<u8>)
    ensures
        b@ == vertex_bytes(geom@),
{
    let mut b: Vec<u8> = Vec::new();
    push_vertices(&mut b, geom);
    assert(b@ =~= vertex_bytes(geom@));
    b
}

fn push_vertices(out: &mut Vec<u8>, geom: &[(i32, i32)])
    ensures
        final(out)@ == old(out)@ + vertex_bytes(geom@),
{
    let ghost pieces = Seq::new(
        geom@.len(),
        |i: int| i32_bytes(geom@[i].0) + i32_bytes(geom@[i].1),
    );
    let mut i: usize = 0;
    assert(old(out)@ + joined(pieces.take(0)) =~= old(out)@);
    while i < geom.len()
        invariant
            i <= geom@.len(),
            pieces == Seq::new(
                geom@.len(),
                |k: int| i32_bytes(geom@[k].0) + i32_bytes(geom@[k].1),
            ),
            out@ == old(out)@ + joined(pieces.take(i as int)),
        decreases geom@.len() - i,
    {
        push_i32(out, geom[i].0);
        push_i32(out, geom[i].1);
        proof {
            assert(pieces.take(i + 1).drop_last() =~= pieces.take(i as int));
            assert(out@ =~= old(out)@ + joined(pieces.take(i + 1)));
        }
        i += 1;
    }
    assert(pieces.take(i as int) =~= pieces);
}

/// The vertices of a blob; up to seven bytes behind the last whole vertex are
/// ignored.
pub fn blob_to_geom(blob: &[u8]) -> (g: Vec<(i32, i32)>)
    ensures
        g@ == blob_vertices(blob@),
{
    let n: usize = blob.len() / 8;
    let mut g: Vec<(i32, i32)> = Vec::new();
    let mut i: usize = 0;
    while i < n
        invariant
            i <= n,
            n == blob@.len() / 8,
            blob@.len() <= usize::MAX,
            g@ == blob_vertices(blob@).take(i as int),
        decreases n - i,
    {
        let x: i32 = i32_le(blob, 8 * i);
        let y: i32 = i32_le(blob, 8 * i + 4);
        g.push((x, y));
        assert(g@ =~= blob_vertices(blob@).take(i + 1));
        i += 1;
    }
    assert(g@ =~= blob_vertices(blob@));
    g
}

/// The vertices that the whole eight-byte groups of a blob spell.
pub open spec fn blob_vertices(blob: Seq<u8>) -> Seq<(i32, i32)> {
    Seq::new(blob.len() / 8, |i: int| (i32_at(blob, 8 * i) as i32, i32_at(blob, 8 * i + 4) as i32))
}

/// A line that was turned into a blob is read back unchanged.
pub proof fn law_geom_blob_round_trip(geom: Seq<(i32, i32)>)
    ensures
        vertex_bytes(geom).len() == 8 * geom.len(),
        blob_vertices(vertex_bytes(geom)) == geom,
{
    let pieces = Seq::new(geom.len(), |i: int| i32_bytes(geom[i].0) + i32_bytes(geom[i].1));
    let b = vertex_bytes(geom);
    lemma_joined_even(pieces, 8, geom.len() as int);
    assert(pieces.take(geom.len() as int) =~= pieces);
    assert(b.subrange(0, b.len() as int) =~= b);
    assert forall|i: int| 0 <= i < geom.len() implies blob_vertices(b)[i] == geom[i] by {
        lemma_vertex_at(geom, b, 0, i);
    }
    assert(blob_vertices(b) =~= geom);
}

/// Vertex `i` of a line whose bytes stand at `o`.
pub proof fn lemma_vertex_at(geom: Seq<(i32, i32)>, b: Seq<u8>, o: int, i: int)
    requires
        0 <= i < geom.len(),
        0 <= o,
        o + 8 * geom.len() <= b.len(),
        b.subrange(o, o + 8 * geom.len()) == vertex_bytes(geom),
    ensures
        i32_at(b, o + 8 * i) == geom[i].0,
        i32_at(b, o + 8 * i + 4) == geom[i].1,
{
    let pieces = Seq::new(geom.len(), |k: int| i32_bytes(geom[k].0) + i32_bytes(geom[k].1));
    let v = vertex_bytes(geom);
    lemma_joined_even(pieces, 8, i);
    lemma_joined_piece(pieces, i);
    let p = v.subrange(8 * i, 8 * i + 8);
    assert(p == pieces[i]);
    assert(b.subrange(o + 8 * i, o + 8 * i + 4) =~= p.subrange(0, 4));
    assert(b.subrange(o + 8 * i + 4, o + 8 * i + 8) =~= p.subrange(4, 8));
    assert(p.subrange(0, 4) =~= i32_bytes(geom[i].0));
    assert(p.subrange(4, 8) =~= i32_bytes(geom[i].1));
    lemma_i32_round_trip(b, o + 8 * i, geom[i].0);
    lemma_i32_round_trip(b, o + 8 * i + 4, geom[i].1);
}

/// The identifier that a blob of sixteen bytes holds.
pub fn blob_to_id(blob: &[u8]) -> (id: ElementId)
    requires
        blob@.len() == 16,
    ensures
        id@ == blob@,
{
    let mut id: ElementId = [0u8; 16];
    let mut i: usize = 0;
    while i < 16
        invariant
            i <= 16,
            blob@.len() == 16,
            forall|k: int| 0 <= k < i ==> id@[k] == blob@[k],
        decreases 16 - i,
    {
        id[i] = blob[i];
        i += 1;
    }
    assert(id@ =~= blob@);
    id
}

/// The start and end of each edge, in turn.
pub open spec fn endpoints(edges: Seq<LmEdge>) -> Seq<ElementId> {
    Seq::new(
        2 * edges.len(),
        |k: int|
            if k % 2 == 0 {
                edges[k / 2].start_id
            } else {
                edges[k / 2].end_id
            },
    )
}

/// Each element of `s` once, where it first occurs.
pub open spec fn distinct(s: Seq<ElementId>) -> Seq<ElementId>
    decreases s.len(),
{
    if s.len() == 0 {
        s
    } else {
        let before = distinct(s.drop_last());
        if before.contains(s.last()) {
            before
        } else {
            before.push(s.last())
        }
    }
}

/// Whether `index` says of each element of `order` where it stands, and of nothing
/// else.
pub open spec fn indexes(index: Map<u128, u32>, order: Seq<ElementId>) -> bool {
    &&& forall|i: int|
        0 <= i < order.len() ==> index.contains_key(id_number((#[trigger] order[i])@))
            && index[id_number(order[i]@)] == low32(i)
    &&& forall|n: u128| #[trigger]
        index.contains_key(n) ==> exists|i: int|
            0 <= i < order.len() && id_number((#[trigger] order[i])@) == n
}

/// The place of each element of `order`.
pub open spec fn place_index(order: Seq<ElementId>) -> Map<u128, u32>
    decreases order.len(),
{
    if order.len() == 0 {
        Map::empty()
    } else {
        place_index(order.drop_last()).insert(
            id_number(order.last()@),
            low32(order.len() - 1),
        )
    }
}

/// The nodes of a tile, in the order in which its edges first name them, and the
/// place of each in that order.
pub fn compute_tile_nodes_lm(edges: &[LmEdge]) -> (r: (Vec<ElementId>, HashMap<u128, u32>))
    ensures
        r.0@ == distinct(endpoints(edges@)),
        r.1@ == place_index(r.0@),
        indexes(r.1@, r.0@),
{
    broadcast use vstd::std_specs::hash::group_hash_axioms;

    let mut order: Vec<ElementId> = Vec::new();
    let mut index: HashMap<u128, u32> = HashMap::new();
    let ghost ends = endpoints(edges@);
    let mut i: usize = 0;
    while i < edges.len()
        invariant
            i <= edges@.len(),
            ends == endpoints(edges@),
            order@ == distinct(ends.take(2 * i)),
            order@.no_duplicates(),
            index@ == place_index(order@),
        decreases edges@.len() - i,
    {
        note_node(&mut order, &mut index, edges[i].start_id);
        assert(ends.take(2 * i + 1).drop_last() =~= ends.take(2 * i));
        assert(ends.take(2 * i + 1).last() == edges@[i as int].start_id);
        assert(order@ == distinct(ends.take(2 * i + 1)));
        note_node(&mut order, &mut index, edges[i].end_id);
        assert(ends.take(2 * i + 2).drop_last() =~= ends.take(2 * i + 1));
        assert(ends.take(2 * i + 2).last() == edges@[i as int].end_id);
        assert(order@ == distinct(ends.take(2 * i + 2)));
        i += 1;
    }
    assert(ends.take(2 * i) =~= ends);
    proof {
        lemma_place_index(order@);
    }
    (order, index)
}

/// Add `id` unless it is there already.
fn note_node(order: &mut Vec<ElementId>, index: &mut HashMap<u128, u32>, id: ElementId)
    requires
        old(order)@.no_duplicates(),
        old(index)@ == place_index(old(order)@),
    ensures
        final(order)@.no_duplicates(),
        final(index)@ == place_index(final(order)@),
        final(order)@ == if old(order)@.contains(id) {
            old(order)@
        } else {
            old(order)@.push(id)
        },
{
    broadcast use vstd::std_specs::hash::group_hash_axioms;

    let key: u128 = id_key(&id);
    let ghost before = order@;
    let known: bool = index.contains_key(&key);
    proof {
        lemma_place_index(before);
        if before.contains(id) {
            let k = choose|k: int| 0 <= k < before.len() && before[k] == id;
            assert(index@.contains_key(id_number(before[k]@)));
        }
        if index@.contains_key(key) {
            let k = choose|k: int|
                0 <= k < before.len() && id_number((#[trigger] before[k])@) == key;
            lemma_id_number_injective(before[k], id);
        }
        assert(known <==> before.contains(id));
    }
    if !known {
        let place: u32 = low32_of(order.len());
        order.push(id);
        index.insert(key, place);
        assert(order@.drop_last() =~= before);
    }
}

/// `place_index` says of each element where it stands, and of nothing else.
pub proof fn lemma_place_index(order: Seq<ElementId>)
    requires
        order.no_duplicates(),
    ensures
        indexes(place_index(order), order),
    decreases order.len(),
{
    if order.len() > 0 {
        let before = order.drop_last();
        let index = place_index(order);
        let last = order.last();
        lemma_place_index(before);
        assert forall|i: int| 0 <= i < order.len() implies index.contains_key(
            id_number((#[trigger] order[i])@),
        ) && index[id_number(order[i]@)] == low32(i) by {
            if i < before.len() {
                assert(before[i] == order[i]);
                if id_number(before[i]@) == id_number(last@) {
                    lemma_id_number_injective(before[i], last);
                }
            }
        }
        assert forall|n: u128| #[trigger] index.contains_key(n) implies exists|i: int|
            0 <= i < order.len() && id_number((#[trigger] order[i])@) == n by {
            if n == id_number(last@) {
                assert(order[order.len() - 1] == last);
            } else {
                let k = choose|k: int|
                    0 <= k < before.len() && id_number((#[trigger] before[k])@) == n;
                assert(order[k] == before[k]);
            }
        }
    }
}

fn low32_of(n: usize) -> (r: u32)
    ensures
        r == low32(n as int),
{
    (n as u64 % 0x1_0000_0000) as u32
}

/// How an edge is written, given the tile's place for each node.
pub open spec fn seg_out(e: LmEdge, index: Map<u128, u32>) -> SegOut {
    SegOut {
        start: index[id_number(e.start_id@)],
        end: index[id_number(e.end_id@)],
        geom: e.geom@,
        length_cm: e.length_cm,
        attrs: packed_attrs(e.frc, e.fow, e.direction),
        id: encode_utf8(e.stable_id@),
    }
}

/// What is known of the nodes of all tiles, by the number of their identifier.
#[derive(Debug)]
pub struct NodeTables {
    /// Longitude and latitude, in units of 1e-7 degree.
    pub lookup: HashMap<u128, (i32, i32)>,
    /// The tile that the node lies in.
    pub to_tile: HashMap<u128, (u32, u32)>,
    pub stable_id: HashMap<u128, String>,
}

/// How a node is written into tile `x`/`y`: one without coordinates at (0, 0), one
/// without a stable id under the empty text, and one that does not lie in the tile
/// as a boundary node.
pub open spec fn node_out(id: ElementId, t: NodeTables, x: u32, y: u32) -> NodeOut {
    let n = id_number(id@);
    let at = if t.lookup@.contains_key(n) {
        t.lookup@[n]
    } else {
        (0i32, 0i32)
    };
    NodeOut {
        lon: at.0,
        lat: at.1,
        id: if t.stable_id@.contains_key(n) {
            encode_utf8(t.stable_id@[n]@)
        } else {
            Seq::empty()
        },
        is_boundary: !(t.to_tile@.contains_key(n) && t.to_tile@[n] == (x, y)),
    }
}

/// How a cross-tile restriction is written.
pub open spec fn cross_out(c: LmCrossTile) -> CrossOut {
    CrossOut {
        from: encode_utf8(c.from_id@),
        via: c.via_node_local,
        to: encode_utf8(c.to_id@),
        flags: c.flags,
    }
}

/// All that the payload of tile `x`/`y` holds.
pub open spec fn plan_of(
    edges: Seq<LmEdge>,
    node_order: Seq<ElementId>,
    node_index: Map<u128, u32>,
    tables: NodeTables,
    x: u32,
    y: u32,
    intra: Seq<LmIntraTile>,
    cross: Seq<LmCrossTile>,
) -> TilePlan {
    TilePlan {
        segs: Seq::new(edges.len(), |i: int| seg_out(edges[i], node_index)),
        nodes: Seq::new(node_order.len(), |i: int| node_out(node_order[i], tables, x, y)),
        intra,
        cross: Seq::new(cross.len(), |i: int| cross_out(cross[i])),
    }
}

/// Append the part of `s` that a payload has room for.
fn push_clipped(pool: &mut Vec<u8>, s: &str) -> (len: u8)
    ensures
        final(pool)@ == old(pool)@ + clipped(encode_utf8(s@)),
        len == clipped(encode_utf8(s@)).len(),
{
    let b: &[u8] = s.as_bytes();
    if b.len() <= 255 {
        push_all(pool, b);
        b.len() as u8
    } else {
        let part: &[u8] = vstd::slice::slice_subrange(b, 0, 255);
        assert(part@ =~= b@.take(255));
        push_all(pool, part);
        255
    }
}

/// Whether `pool` and `at` hold the first `k` pieces: their bytes, and where each
/// starts and how long it is.
spec fn pool_holds(pool: Seq<u8>, at: Seq<(u32, u8)>, pieces: Seq<Seq<u8>>, k: int) -> bool {
    &&& 0 <= k <= pieces.len()
    &&& pool == joined(pieces.take(k))
    &&& at.len() == k
    &&& forall|j: int|
        0 <= j < k ==> #[trigger] at[j] == (
            low32(start_of(pieces, j)),
            pieces[j].len() as u8,
        )
}

/// Append one text to the pool.
fn add_to_pool(
    pool: &mut Vec<u8>,
    at: &mut Vec<(u32, u8)>,
    s: &str,
    Ghost(pieces): Ghost<Seq<Seq<u8>>>,
    Ghost(k): Ghost<int>,
)
    requires
        pool_holds(old(pool)@, old(at)@, pieces, k),
        k < pieces.len(),
        pieces[k] == clipped(encode_utf8(s@)),
    ensures
        pool_holds(final(pool)@, final(at)@, pieces, k + 1),
{
    let off: u32 = low32_of(pool.len());
    let len: u8 = push_clipped(pool, s);
    at.push((off, len));
    assert(pieces.take(k + 1).drop_last() =~= pieces.take(k));
}

/// The string pool of a tile, and where each of its texts is: those of the edges,
/// then those of the nodes, then two for each cross restriction.
fn build_pool(
    edges: &[LmEdge],
    node_order: &[ElementId],
    tables: &NodeTables,
    cross: &[LmCrossTile],
    Ghost(plan): Ghost<TilePlan>,
) -> (r: (Vec<u8>, Vec<(u32, u8)>))
    requires
        plan.segs.len() == edges@.len(),
        plan.nodes.len() == node_order@.len(),
        plan.cross.len() == cross@.len(),
        forall|i: int|
            0 <= i < edges@.len() ==> (#[trigger] plan.segs[i]).id == encode_utf8(
                edges@[i].stable_id@,
            ),
        forall|i: int|
            0 <= i < node_order@.len() ==> (#[trigger] plan.nodes[i]).id == node_out(
                node_order@[i],
                *tables,
                0,
                0,
            ).id,
        forall|i: int|
            0 <= i < cross@.len() ==> (#[trigger] plan.cross[i]) == cross_out(cross@[i]),
    ensures
        pool_holds(r.0@, r.1@, plan.pieces(), plan.pieces().len() as int),
{
    broadcast use vstd::std_specs::hash::group_hash_axioms;

    let ghost pieces = plan.pieces();
    let ghost e = edges@.len();
    let ghost n = node_order@.len();
    let mut pool: Vec<u8> = Vec::new();
    let mut at: Vec<(u32, u8)> = Vec::new();
    assert(pieces.take(0) =~= Seq::empty());
    let mut i: usize = 0;
    while i < edges.len()
        invariant
            i <= edges@.len(),
            pieces == plan.pieces(),
            plan.segs.len() == edges@.len(),
            forall|k: int|
                0 <= k < edges@.len() ==> (#[trigger] plan.segs[k]).id == encode_utf8(
                    edges@[k].stable_id@,
                ),
            pool_holds(pool@, at@, pieces, i as int),
        decreases edges@.len() - i,
    {
        assert(pieces[i as int] == clipped(plan.segs[i as int].id));
        add_to_pool(
            &mut pool,
            &mut at,
            edges[i].stable_id.as_str(),
            Ghost(pieces),
            Ghost(i as int),
        );
        i += 1;
    }
    let empty: String = String::new();
    i = 0;
    while i < node_order.len()
        invariant
            i <= node_order@.len(),
            e == edges@.len(),
            pieces == plan.pieces(),
            plan.segs.len() == edges@.len(),
            plan.nodes.len() == node_order@.len(),
            empty@ == Seq::<char>::empty(),
            forall|k: int|
                0 <= k < node_order@.len() ==> (#[trigger] plan.nodes[k]).id == node_out(
                    node_order@[k],
                    *tables,
                    0,
                    0,
                ).id,
            pool_holds(pool@, at@, pieces, e + i),
        decreases node_order@.len() - i,
    {
        assert(pieces[e + i] == clipped(plan.nodes[i as int].id));
        assert(encode_utf8(Seq::<char>::empty()) =~= Seq::<u8>::empty());
        let s: &String = match tables.stable_id.get(&id_key(&node_order[i])) {
            Some(s) => s,
            None => &empty,
        };
        add_to_pool(&mut pool, &mut at, s.as_str(), Ghost(pieces), Ghost(e + i));
        i += 1;
    }
    i = 0;
    while i < cross.len()
        invariant
            i <= cross@.len(),
            e == edges@.len(),
            n == node_order@.len(),
            pieces == plan.pieces(),
            plan.segs.len() == edges@.len(),
            plan.nodes.len() == node_order@.len(),
            plan.cross.len() == cross@.len(),
            forall|k: int|
                0 <= k < cross@.len() ==> (#[trigger] plan.cross[k]) == cross_out(cross@[k]),
            pool_holds(pool@, at@, pieces, e + n + 2 * i),
        decreases cross@.len() - i,
    {
        assert(plan.cross[i as int] == cross_out(cross@[i as int]));
        assert(pieces[e + n + 2 * i] == plan.cross_pieces()[2 * i]);
        assert(pieces[e + n + 2 * i + 1] == plan.cross_pieces()[2 * i + 1]);
        add_to_pool(
            &mut pool,
            &mut at,
            cross[i].from_id.as_str(),
            Ghost(pieces),
            Ghost(e + n + 2 * i),
        );
        add_to_pool(
            &mut pool,
            &mut at,
            cross[i].to_id.as_str(),
            Ghost(pieces),
            Ghost(e + n + 2 * i + 1),
        );
        i += 1;
    }
    (pool, at)
}

/// Append all vertices of the edges to one list.
fn build_geometry(edges: &[LmEdge], Ghost(plan): Ghost<TilePlan>) -> (r: (
    Vec<(i32, i32)>,
    Vec<u32>,
))
    requires
        plan.segs.len() == edges@.len(),
        forall|i: int|
            0 <= i < edges@.len() ==> (#[trigger] plan.segs[i]).geom == edges@[i].geom@,
    ensures
        r.0@ == joined(plan.runs()),
        r.1@ == Seq::new(edges@.len(), |i: int| low32(start_of(plan.runs(), i))),
{
    let ghost runs = plan.runs();
    let mut verts: Vec<(i32, i32)> = Vec::new();
    let mut at: Vec<u32> = Vec::new();
    assert(runs.take(0) =~= Seq::empty());
    let mut i: usize = 0;
    while i < edges.len()
        invariant
            i <= edges@.len(),
            runs == plan.runs(),
            plan.segs.len() == edges@.len(),
            forall|k: int|
                0 <= k < edges@.len() ==> (#[trigger] plan.segs[k]).geom == edges@[k].geom@,
            verts@ == joined(runs.take(i as int)),
            at@ == Seq::new(i as nat, |k: int| low32(start_of(runs, k))),
        decreases edges@.len() - i,
    {
        at.push(low32_of(verts.len()));
        let geom: &Vec<(i32, i32)> = &edges[i].geom;
        let ghost before = verts@;
        let mut j: usize = 0;
        while j < geom.len()
            invariant
                j <= geom@.len(),
                verts@ == before + geom@.take(j as int),
            decreases geom@.len() - j,
        {
            verts.push(geom[j]);
            assert(verts@ =~= before + geom@.take(j + 1));
            j += 1;
        }
        proof {
            assert(geom@.take(j as int) =~= geom@);
            assert(plan.segs[i as int].geom == geom@);
            assert(runs.take(i + 1).drop_last() =~= runs.take(i as int));
            assert(at@ =~= Seq::new((i + 1) as nat, |k: int| low32(start_of(runs, k))));
        }
        i += 1;
    }
    assert(runs.take(i as int) =~= runs);
    (verts, at)
}

fn push_node_record(
    out: &mut Vec<u8>,
    lon: i32,
    lat: i32,
    id_off: u32,
    id_len: u8,
    boundary: bool,
)
    ensures
        final(out)@ == old(out)@ + node_record(lon, lat, id_off, id_len, boundary),
{
    push_i32(out, lon);
    push_i32(out, lat);
    push_u32(out, id_off);
    out.push(id_len);
    push_zeros(out, 11);
    out.push(
        if boundary {
            1
        } else {
            0
        },
    );
    push_zeros(out, 3);
    reveal(node_record);
    assert(out@ =~= old(out)@ + node_record(lon, lat, id_off, id_len, boundary));
}

fn push_header_record(
    out: &mut Vec<u8>,
    segs: u32,
    nodes: u32,
    restrs: u32,
    verts: u32,
    xrestrs: u32,
    pool: u32,
)
    ensures
        final(out)@ == old(out)@ + header_record(segs, nodes, restrs, verts, xrestrs, pool),
{
    out.push(0x4f);
    out.push(0x4c);
    out.push(0x52);
    out.push(0x4c);
    out.push(3);
    push_zeros(out, 3);
    push_u32(out, segs);
    push_u32(out, nodes);
    push_u32(out, restrs);
    push_u32(out, verts);
    push_u32(out, xrestrs);
    push_u32(out, pool);
    push_zeros(out, 8);
    reveal(header_record);
    assert(out@ =~= old(out)@ + header_record(segs, nodes, restrs, verts, xrestrs, pool));
}

fn push_seg_record(
    out: &mut Vec<u8>,
    start: u32,
    end: u32,
    first: u32,
    len: u16,
    length_cm: u32,
    attrs: u8,
    id_off: u32,
    id_len: u8,
)
    ensures
        final(out)@ == old(out)@ + seg_record(
            start,
            end,
            first,
            len,
            length_cm,
            attrs,
            id_off,
            id_len,
        ),
{
    push_u32(out, start);
    push_u32(out, end);
    push_u32(out, first);
    push_u16(out, len);
    push_u32(out, length_cm);
    out.push(attrs);
    out.push(0);
    push_u32(out, id_off);
    out.push(id_len);
    push_zeros(out, 7);
    reveal(seg_record);
    assert(out@ =~= old(out)@ + seg_record(
        start,
        end,
        first,
        len,
        length_cm,
        attrs,
        id_off,
        id_len,
    ));
}

fn push_intra_record(out: &mut Vec<u8>, from: u32, via: u32, to: u32, flags: u8)
    ensures
        final(out)@ == old(out)@ + intra_record(from, via, to, flags),
{
    push_u32(out, from);
    push_u32(out, via);
    push_u32(out, to);
    out.push(flags);
    push_zeros(out, 3);
    reveal(intra_record);
    assert(out@ =~= old(out)@ + intra_record(from, via, to, flags));
}

fn push_cross_record(
    out: &mut Vec<u8>,
    from_off: u32,
    from_len: u8,
    via: u32,
    to_off: u32,
    to_len: u8,
    flags: u8,
)
    ensures
        final(out)@ == old(out)@ + cross_record(from_off, from_len, via, to_off, to_len, flags),
{
    push_u32(out, from_off);
    out.push(from_len);
    push_u32(out, via);
    push_u32(out, to_off);
    out.push(to_len);
    out.push(flags);
    out.push(0);
    reveal(cross_record);
    assert(out@ =~= old(out)@ + cross_record(from_off, from_len, via, to_off, to_len, flags));
}

/// Build the payload of tile `tile_x`/`tile_y`.
///
/// `node_order` lists the tile's nodes and `node_index` says where in that list each
/// edge's nodes are. Identifiers longer than 255 bytes are cut there.
#[verifier::rlimit(40)]
pub fn build_lm_tile_payload(
    edges: &[LmEdge],
    node_order: &[ElementId],
    node_index: &HashMap<u128, u32>,
    tables: &NodeTables,
    tile_x: u32,
    tile_y: u32,
    intra: &[LmIntraTile],
    cross: &[LmCrossTile],
) -> (payload: Vec<u8>)
    requires
        forall|i: int|
            0 <= i < edges@.len() ==> node_index@.contains_key(
                id_number((#[trigger] edges@[i]).start_id@),
            ) && node_index@.contains_key(id_number(edges@[i].end_id@)),
    ensures
        payload@ == plan_of(
            edges@,
            node_order@,
            node_index@,
            *tables,
            tile_x,
            tile_y,
            intra@,
            cross@,
        ).bytes(),
{
    broadcast use vstd::std_specs::hash::group_hash_axioms;

    let ghost plan = plan_of(
        edges@,
        node_order@,
        node_index@,
        *tables,
        tile_x,
        tile_y,
        intra@,
        cross@,
    );
    let (pool, at) = build_pool(edges, node_order, tables, cross, Ghost(plan));
    let (verts, runs) = build_geometry(edges, Ghost(plan));
    assert(plan.pieces().take(plan.pieces().len() as int) =~= plan.pieces());
    assert(plan.pieces().len() == edges@.len() + node_order@.len() + 2 * cross@.len());

    let mut out: Vec<u8> = Vec::new();
    push_header_record(
        &mut out,
        low32_of(edges.len()),
        low32_of(node_order.len()),
        low32_of(intra.len()),
        low32_of(verts.len()),
        low32_of(cross.len()),
        low32_of(pool.len()),
    );
    assert(out@ =~= plan.header_bytes());

    let ghost recs = Seq::new(plan.segs.len(), |i: int| plan.seg_bytes(i));
    let ghost before = out@;
    assert(before + joined(recs.take(0)) =~= before);
    let mut i: usize = 0;
    while i < edges.len()
        invariant
            i <= edges@.len(),
            plan.segs == Seq::new(edges@.len(), |k: int| seg_out(edges@[k], node_index@)),
            forall|k: int|
                0 <= k < edges@.len() ==> node_index@.contains_key(
                    id_number((#[trigger] edges@[k]).start_id@),
                ) && node_index@.contains_key(id_number(edges@[k].end_id@)),
            recs == Seq::new(plan.segs.len(), |k: int| plan.seg_bytes(k)),
            runs@ == Seq::new(edges@.len(), |k: int| low32(start_of(plan.runs(), k))),
            at@.len() >= edges@.len(),
            forall|j: int|
                0 <= j < at@.len() ==> #[trigger] at@[j] == (
                    low32(start_of(plan.pieces(), j)),
                    plan.pieces()[j].len() as u8,
                ),
            out@ == before + joined(recs.take(i as int)),
        decreases edges@.len() - i,
    {
        let e: &LmEdge = &edges[i];
        let ghost so_far = out@;
        let (id_off, id_len): (u32, u8) = at[i];
        push_seg_record(
            &mut out,
            *node_index.get(&id_key(&e.start_id)).unwrap(),
            *node_index.get(&id_key(&e.end_id)).unwrap(),
            runs[i],
            (e.geom.len() as u64 % 0x1_0000) as u16,
            e.length_cm,
            pack_attrs_lm(e.frc, e.fow, e.direction),
            id_off,
            id_len,
        );
        proof {
            assert(plan.pieces()[i as int] == clipped(plan.segs[i as int].id));
            assert(out@ == so_far + plan.seg_bytes(i as int));
            assert(recs.take(i + 1).drop_last() =~= recs.take(i as int));
            assert(out@ =~= before + joined(recs.take(i + 1)));
        }
        i += 1;
    }
    assert(recs.take(i as int) =~= recs);

    push_vertices(&mut out, verts.as_slice());

    let ghost recs = Seq::new(plan.nodes.len(), |i: int| plan.node_bytes(i));
    let ghost before = out@;
    assert(before + joined(recs.take(0)) =~= before);
    i = 0;
    while i < node_order.len()
        invariant
            i <= node_order@.len(),
            plan.segs.len() == edges@.len(),
            plan.nodes == Seq::new(
                node_order@.len(),
                |k: int| node_out(node_order@[k], *tables, tile_x, tile_y),
            ),
            recs == Seq::new(plan.nodes.len(), |k: int| plan.node_bytes(k)),
            at@.len() >= edges@.len() + node_order@.len(),
            forall|j: int|
                0 <= j < at@.len() ==> #[trigger] at@[j] == (
                    low32(start_of(plan.pieces(), j)),
                    plan.pieces()[j].len() as u8,
                ),
            out@ == before + joined(recs.take(i as int)),
        decreases node_order@.len() - i,
    {
        let key: u128 = id_key(&node_order[i]);
        let ghost so_far = out@;
        let (lon, lat): (i32, i32) = match tables.lookup.get(&key) {
            Some(p) => *p,
            None => (0, 0),
        };
        let home: bool = match tables.to_tile.get(&key) {
            Some(t) => t.0 == tile_x && t.1 == tile_y,
            None => false,
        };
        assert(at.len() == at@.len());
        let (id_off, id_len): (u32, u8) = at[edges.len() + i];
        push_node_record(&mut out, lon, lat, id_off, id_len, !home);
        proof {
            assert(plan.pieces()[edges@.len() + i] == clipped(plan.nodes[i as int].id));
            assert(out@ == so_far + plan.node_bytes(i as int));
            assert(recs.take(i + 1).drop_last() =~= recs.take(i as int));
            assert(out@ =~= before + joined(recs.take(i + 1)));
        }
        i += 1;
    }
    assert(recs.take(i as int) =~= recs);

    let ghost recs = Seq::new(plan.intra.len(), |i: int| plan.intra_bytes(i));
    let ghost before = out@;
    assert(before + joined(recs.take(0)) =~= before);
    i = 0;
    while i < intra.len()
        invariant
            i <= intra@.len(),
            plan.intra == intra@,
            recs == Seq::new(plan.intra.len(), |k: int| plan.intra_bytes(k)),
            out@ == before + joined(recs.take(i as int)),
        decreases intra@.len() - i,
    {
        let ghost so_far = out@;
        push_intra_record(
            &mut out,
            intra[i].from_seg,
            intra[i].via_node,
            intra[i].to_seg,
            intra[i].flags,
        );
        proof {
            assert(out@ == so_far + plan.intra_bytes(i as int));
            assert(recs.take(i + 1).drop_last() =~= recs.take(i as int));
            assert(out@ =~= before + joined(recs.take(i + 1)));
        }
        i += 1;
    }
    assert(recs.take(i as int) =~= recs);

    let ghost recs = Seq::new(plan.cross.len(), |i: int| plan.cross_bytes(i));
    let ghost before = out@;
    assert(before + joined(recs.take(0)) =~= before);
    i = 0;
    while i < cross.len()
        invariant
            i <= cross@.len(),
            plan.segs.len() == edges@.len(),
            plan.nodes.len() == node_order@.len(),
            plan.cross == Seq::new(cross@.len(), |k: int| cross_out(cross@[k])),
            recs == Seq::new(plan.cross.len(), |k: int| plan.cross_bytes(k)),
            at@.len() == edges@.len() + node_order@.len() + 2 * cross@.len(),
            forall|j: int|
                0 <= j < at@.len() ==> #[trigger] at@[j] == (
                    low32(start_of(plan.pieces(), j)),
                    plan.pieces()[j].len() as u8,
                ),
            out@ == before + joined(recs.take(i as int)),
        decreases cross@.len() - i,
    {
        let ghost so_far = out@;
        assert(at.len() == at@.len());
        let first: usize = edges.len() + node_order.len() + 2 * i;
        let (from_off, from_len): (u32, u8) = at[first];
        let (to_off, to_len): (u32, u8) = at[first + 1];
        push_cross_record(
            &mut out,
            from_off,
            from_len,
            cross[i].via_node_local,
            to_off,
            to_len,
            cross[i].flags,
        );
        proof {
            assert(plan.pieces()[first as int] == plan.cross_pieces()[2 * i]);
            assert(plan.pieces()[first + 1] == plan.cross_pieces()[2 * i + 1]);
            assert(out@ == so_far + plan.cross_bytes(i as int));
            assert(recs.take(i + 1).drop_last() =~= recs.take(i as int));
            assert(out@ =~= before + joined(recs.take(i + 1)));
        }
        i += 1;
    }
    assert(recs.take(i as int) =~= recs);

    push_all(&mut out, pool.as_slice());
    assert(out@ =~= plan.bytes());
    out
}

/// Whether a node is a boundary node depends on the tile: it is none in the tile that it
/// lies in, and one in every other.
pub proof fn law_boundary_is_relative_to_the_tile(
    id: ElementId,
    t: NodeTables,
    x: u32,
    y: u32,
)
    requires
        t.to_tile@.contains_key(id_number(id@)),
    ensures
        node_out(id, t, x, y).is_boundary <==> t.to_tile@[id_number(id@)] != (x, y),
{
}

} // verus!
