//! What the bytes of a tile say, record by record, and what each record adds to a network.
use vstd::prelude::*;

use crate::bytes::{i32_at, u16_at, u32_at};
use crate::graph::{Direction, GraphModel, NodeId, NodeModel, SegmentId, TileKey};
use crate::text::text_of;
use crate::tile_format::{
    header_of, header_verdict, node_rec, pool_text, restr_rec, seg_rec, xrestr_rec, NodeRec,
    RestrRec, SegRec, TileReadError, XRestrRec,
};
use crate::tile_laws::lemma_table_lengths;
use crate::tile_merge::{
    absorb, after_nodes, after_restrs, after_segs, after_xrestrs, loaded, merged, node_reader,
    parse_result, readable, restr_reader, seg_reader, step_node, step_restr, step_seg, step_xrestr,
    taking_node, taking_seg, xrestr_reader, LoadModel, Progress,
};
use crate::tile_reader::{loaded_at, with_node_places, with_seg_places, LoaderModel, TilePlace};

verus! {

/// The number of bytes that the counts of a header ask for.
pub open spec fn bytes_needed(b: Seq<u8>) -> int {
    40 + 32 * u32_at(b, 8) + 8 * u32_at(b, 20) + 28 * u32_at(b, 12) + 16 * u32_at(b, 16) + 16
        * u32_at(b, 24) + u32_at(b, 28)
}

/// Whether a payload starts with `OLRL`.
pub open spec fn starts_right(b: Seq<u8>) -> bool {
    b.len() >= 4 && b[0] == 79 && b[1] == 76 && b[2] == 82 && b[3] == 76
}

/// A payload is in order as a whole just where it starts with `OLRL`, is of version 3 and
/// holds as many bytes as its counts ask for. Otherwise it is refused for what is wrong.
pub proof fn law_headers_are_checked(b: Seq<u8>, r: Option<TileReadError>)
    requires
        b.len() <= usize::MAX,
        header_verdict(b, r),
    ensures
        r is None <==> b.len() >= 40 && starts_right(b) && b[4] == 3 && b.len() >= bytes_needed(b),
        (match r {
            Some(TileReadError::TooShort { need, have }) => {
                &&& have == b.len()
                &&& have <= need
                &&& bytes_needed(b) <= usize::MAX ==> have < need
                &&& b.len() < 40 ==> need == 40
                &&& b.len() >= 40 && bytes_needed(b) <= usize::MAX ==> need == bytes_needed(b)
            },
            Some(TileReadError::BadMagic(m)) => b.len() >= 40 && !starts_right(b) && m@ == b.take(
                4,
            ),
            Some(TileReadError::UnsupportedVersion(v)) => b.len() >= 40 && starts_right(b) && v
                == b[4] && v != 3,
            Some(_) => false,
            None => true,
        }),
{
    if b.len() >= 40 {
        let m = seq![0x4fu8, 0x4cu8, 0x52u8, 0x4cu8];
        let f = b.take(4);
        if f == m {
            assert(f[0] == 79 && f[1] == 76 && f[2] == 82 && f[3] == 76);
        }
        if starts_right(b) {
            assert(f =~= m);
        }
    }
}

/// Where the geometry pool starts.
pub open spec fn geometry_at(b: Seq<u8>) -> int {
    40 + 32 * u32_at(b, 8)
}

/// Where the node records start.
pub open spec fn nodes_at(b: Seq<u8>) -> int {
    geometry_at(b) + 8 * u32_at(b, 20)
}

/// Where the restriction records start.
pub open spec fn restrictions_at(b: Seq<u8>) -> int {
    nodes_at(b) + 28 * u32_at(b, 12)
}

/// Where the cross restriction records start.
pub open spec fn crosses_at(b: Seq<u8>) -> int {
    restrictions_at(b) + 16 * u32_at(b, 16)
}

/// Where the string pool starts.
pub open spec fn strings_at(b: Seq<u8>) -> int {
    crosses_at(b) + 16 * u32_at(b, 24)
}

/// Whether `t` is the text of `len` bytes of the string pool from `off` on.
pub open spec fn is_pooled(b: Seq<u8>, off: int, len: int, t: Seq<char>) -> bool {
    &&& off + len <= u32_at(b, 28)
    &&& text_of(b.subrange(strings_at(b) + off, strings_at(b) + off + len)) == Some(t)
}

/// Why there is no text in `len` bytes of the string pool from `off` on.
pub open spec fn is_not_pooled(b: Seq<u8>, off: int, len: int, e: TileReadError) -> bool {
    match e {
        TileReadError::PoolOutOfRange { offset, len: n, pool } => {
            &&& off + len > u32_at(b, 28)
            &&& off <= usize::MAX ==> offset == off
            &&& len <= usize::MAX ==> n == len
            &&& u32_at(b, 28) <= usize::MAX ==> pool == u32_at(b, 28)
        },
        TileReadError::InvalidUtf8 => off + len <= u32_at(b, 28) && text_of(
            b.subrange(strings_at(b) + off, strings_at(b) + off + len),
        ) is None,
        _ => false,
    }
}

proof fn lemma_pooled(b: Seq<u8>, off: int, len: int)
    requires
        0 <= off,
        0 <= len,
    ensures
        (match pool_text(b, header_of(b), off, len) {
            Ok(t) => is_pooled(b, off, len, t),
            Err(e) => is_not_pooled(b, off, len, e),
        }),
{
}

/// A node record says where its node is, under which stable id, and whether its home is
/// another tile; and it is refused only where its stable id cannot be read.
pub proof fn law_node_records_say_their_bytes(b: Seq<u8>, i: int)
    ensures
        ({
            let o = nodes_at(b) + 28 * i;
            match node_rec(b, header_of(b), i) {
                Ok(r) => {
                    &&& r.lon == i32_at(b, o)
                    &&& r.lat == i32_at(b, o + 4)
                    &&& is_pooled(b, u32_at(b, o + 8), b[o + 12] as int, r.stable_id)
                    &&& r.is_boundary <==> b[o + 24] % 2 == 1
                },
                Err(e) => is_not_pooled(b, u32_at(b, o + 8), b[o + 12] as int, e),
            }
        }),
{
    let o = nodes_at(b) + 28 * i;
    lemma_pooled(b, u32_at(b, o + 8), b[o + 12] as int);
}

/// The two bits of a direction.
pub open spec fn direction_bits(d: Direction) -> int {
    match d {
        Direction::Both => 0,
        Direction::Forward => 1,
        Direction::Backward => 2,
    }
}

/// A segment record says which nodes its segment joins, which vertices of the geometry pool
/// are its line, how long it is, of which class, form of way and direction, and under which
/// stable id. It is refused only where a node is not in the tile, the vertices are not in
/// the pool or fewer than two, or its stable id cannot be read.
pub proof fn law_segment_records_say_their_bytes(b: Seq<u8>, i: int)
    ensures
        ({
            let o = 40 + 32 * i;
            let nodes = u32_at(b, 12);
            let verts = u32_at(b, 20);
            let first = u32_at(b, o + 8);
            let len = u16_at(b, o + 12);
            let known = u32_at(b, o) < nodes && u32_at(b, o + 4) < nodes;
            match seg_rec(b, header_of(b), i) {
                Ok(r) => {
                    &&& known && first + len <= verts && len >= 2
                    &&& r.start == u32_at(b, o)
                    &&& r.end == u32_at(b, o + 4)
                    &&& r.geometry.len() == len
                    &&& forall|k: int|
                        0 <= k < len ==> (#[trigger] r.geometry[k]).0 == i32_at(
                            b,
                            geometry_at(b) + 8 * (first + k),
                        ) && r.geometry[k].1 == i32_at(b, geometry_at(b) + 8 * (first + k) + 4)
                    &&& r.length_cm == u32_at(b, o + 14)
                    &&& r.frc <= 7 && r.fow <= 7
                    &&& b[o + 18] < 192 ==> b[o + 18] == r.frc + 8 * r.fow + 64 * direction_bits(
                        r.direction,
                    )
                    &&& b[o + 18] >= 192 ==> b[o + 18] == r.frc + 8 * r.fow + 192 && r.direction
                        == Direction::Both
                    &&& is_pooled(b, u32_at(b, o + 20), b[o + 24] as int, r.stable_id)
                },
                Err(TileReadError::NodeIndexOob(k)) => k >= nodes && (k == u32_at(b, o) || k
                    == u32_at(b, o + 4)),
                Err(TileReadError::GeomOutOfRange { offset, len: n, pool }) => known && first + len
                    > verts,
                Err(TileReadError::GeomTooShort { index, len: n }) => known && first + len <= verts
                    && len < 2 && n == len && (0 <= i <= usize::MAX ==> index == i),
                Err(e) => known && first + len <= verts && len >= 2 && is_not_pooled(
                    b,
                    u32_at(b, o + 20),
                    b[o + 24] as int,
                    e,
                ),
            }
        }),
{
    let o = 40 + 32 * i;
    lemma_pooled(b, u32_at(b, o + 20), b[o + 24] as int);
}

/// A restriction record names the segment that is left, the node, and the segment that is
/// entered; and it is refused only where one of them is not in the tile.
pub proof fn law_restriction_records_say_their_bytes(b: Seq<u8>, i: int)
    ensures
        ({
            let o = restrictions_at(b) + 16 * i;
            let segs = u32_at(b, 8);
            let nodes = u32_at(b, 12);
            let known = u32_at(b, o) < segs && u32_at(b, o + 8) < segs && u32_at(b, o + 4) < nodes;
            match restr_rec(b, header_of(b), i) {
                Ok(r) => known && r.from == u32_at(b, o) && r.via == u32_at(b, o + 4) && r.to
                    == u32_at(b, o + 8),
                Err(TileReadError::SegIndexOob(k)) => k >= segs && (k == u32_at(b, o) || k
                    == u32_at(b, o + 8)),
                Err(TileReadError::NodeIndexOob(k)) => k >= nodes && k == u32_at(b, o + 4),
                Err(_) => false,
            }
        }),
{
}

/// A cross restriction record names the segment that is left and the one that is entered by
/// their stable ids, and the node; and it is refused only where the node is not in the tile
/// or a stable id cannot be read.
pub proof fn law_cross_records_say_their_bytes(b: Seq<u8>, i: int)
    ensures
        ({
            let o = crosses_at(b) + 16 * i;
            let nodes = u32_at(b, 12);
            match xrestr_rec(b, header_of(b), i) {
                Ok(r) => {
                    &&& r.via == u32_at(b, o + 5) && r.via < nodes
                    &&& is_pooled(b, u32_at(b, o), b[o + 4] as int, r.from_id)
                    &&& is_pooled(b, u32_at(b, o + 9), b[o + 13] as int, r.to_id)
                },
                Err(TileReadError::NodeIndexOob(k)) => k >= nodes && k == u32_at(b, o + 5),
                Err(e) => u32_at(b, o + 5) < nodes && (is_not_pooled(
                    b,
                    u32_at(b, o),
                    b[o + 4] as int,
                    e,
                ) || is_not_pooled(b, u32_at(b, o + 9), b[o + 13] as int, e)),
            }
        }),
{
    let o = crosses_at(b) + 16 * i;
    lemma_pooled(b, u32_at(b, o), b[o + 4] as int);
    lemma_pooled(b, u32_at(b, o + 9), b[o + 13] as int);
}

/// A node record whose stable id is known adds nothing. One whose stable id is new adds one
/// node, as the record says, under the next number, and nothing else.
pub proof fn law_node_records_add_a_node(l: LoadModel, r: NodeRec, k: u32)
    requires
        l.consistent(),
        l.next_node < u32::MAX,
    ensures
        ({
            let m = taking_node(l, r);
            let id = l.next_node as u32;
            &&& l.node_ids.contains_key(r.stable_id) ==> m == l
            &&& !l.node_ids.contains_key(r.stable_id) ==> {
                &&& m.node_ids == l.node_ids.insert(r.stable_id, NodeId(id))
                &&& m.next_node == l.next_node + 1
                &&& m.graph.nodes.contains_key(id)
                &&& m.graph.nodes[id] == (NodeModel {
                    id: NodeId(id),
                    lon: r.lon,
                    lat: r.lat,
                    stable_id: r.stable_id,
                    is_boundary: r.is_boundary,
                })
                &&& k != id ==> (m.graph.nodes.contains_key(k) <==> l.graph.nodes.contains_key(k))
                    && (l.graph.nodes.contains_key(k) ==> m.graph.nodes[k] == l.graph.nodes[k])
                &&& m.graph.segments == l.graph.segments
                &&& m.graph.order == l.graph.order
                &&& m.graph.touching == l.graph.touching
                &&& m.graph.restrictions == l.graph.restrictions
                &&& m.graph.loaded == l.graph.loaded
                &&& m.seg_ids == l.seg_ids
                &&& m.next_seg == l.next_seg
                &&& m.pending == l.pending
            }
        }),
{
    let m = taking_node(l, r);
    if l.node_ids.contains_key(r.stable_id) {
        assert(m =~= l);
    } else {
        let id = l.next_node as u32;
        if l.graph.nodes.contains_key(id) {
            assert(l.node_ids.contains_key(l.graph.nodes[id].stable_id));
        }
    }
}

/// A segment record whose stable id is known adds nothing. One whose stable id is new adds
/// one segment, as the record says, between the two nodes, under the next number.
pub proof fn law_segment_records_add_a_segment(
    l: LoadModel,
    r: SegRec,
    start: NodeId,
    end: NodeId,
    k: u32,
)
    requires
        l.consistent(),
        l.next_seg < u32::MAX,
    ensures
        ({
            let m = taking_seg(l, r, start, end);
            let id = l.next_seg as u32;
            &&& l.seg_ids.contains_key(r.stable_id) ==> m == l
            &&& !l.seg_ids.contains_key(r.stable_id) ==> {
                let s = m.graph.segments[id];
                &&& m.seg_ids == l.seg_ids.insert(r.stable_id, SegmentId(id))
                &&& m.next_seg == l.next_seg + 1
                &&& m.graph.segments.contains_key(id)
                &&& s.id.0 == id
                &&& s.start_node == start
                &&& s.end_node == end
                &&& s.geometry == r.geometry
                &&& s.length_cm == r.length_cm
                &&& s.frc == r.frc
                &&& s.fow == r.fow
                &&& s.direction == r.direction
                &&& s.stable_id == r.stable_id
                &&& s.source_id.len() == 16
                &&& forall|j: int| 0 <= j < 16 ==> #[trigger] s.source_id[j] == 0
                &&& k != id ==> (m.graph.segments.contains_key(k)
                    <==> l.graph.segments.contains_key(k)) && (l.graph.segments.contains_key(k)
                    ==> m.graph.segments[k] == l.graph.segments[k])
                &&& m.graph.nodes == l.graph.nodes
                &&& m.graph.restrictions == l.graph.restrictions
                &&& m.graph.loaded == l.graph.loaded
                &&& m.node_ids == l.node_ids
                &&& m.next_node == l.next_node
                &&& m.pending == l.pending
            }
        }),
{
    let m = taking_seg(l, r, start, end);
    if l.seg_ids.contains_key(r.stable_id) {
        assert(m =~= l);
    } else {
        let id = l.next_seg as u32;
        if l.graph.segments.contains_key(id) {
            assert(l.seg_ids.contains_key(l.graph.segments[id].stable_id));
        }
    }
}

proof fn lemma_seg_places(m: Map<u32, TilePlace>, k: TileKey, segs: Seq<SegmentId>, n: int, s: u32)
    requires
        0 <= n <= segs.len(),
    ensures
        ({
            let r = with_seg_places(m, k, segs, n);
            &&& (forall|i: int| 0 <= i < n ==> (#[trigger] segs[i]).0 != s) ==> (r.contains_key(s)
                <==> m.contains_key(s)) && (m.contains_key(s) ==> r[s] == m[s])
            &&& (exists|i: int| 0 <= i < n && (#[trigger] segs[i]).0 == s) ==> r.contains_key(s)
                && exists|i: int|
                {
                    &&& 0 <= i < n
                    &&& (#[trigger] segs[i]).0 == s
                    &&& r[s] == (k.z, k.x, k.y, i as u32)
                    &&& forall|j: int| i < j < n ==> (#[trigger] segs[j]).0 != s
                }
        }),
    decreases n,
{
    if n > 0 {
        lemma_seg_places(m, k, segs, n - 1, s);
        if segs[n - 1].0 == s {
            assert(with_seg_places(m, k, segs, n)[s] == (k.z, k.x, k.y, (n - 1) as u32));
        } else if exists|i: int| 0 <= i < n && (#[trigger] segs[i]).0 == s {
            let h = choose|i: int| 0 <= i < n && (#[trigger] segs[i]).0 == s;
            assert(0 <= h < n - 1);
            let i = choose|i: int|
                {
                    &&& 0 <= i < n - 1
                    &&& (#[trigger] segs[i]).0 == s
                    &&& with_seg_places(m, k, segs, n - 1)[s] == (k.z, k.x, k.y, i as u32)
                    &&& forall|j: int| i < j < n - 1 ==> (#[trigger] segs[j]).0 != s
                };
            assert(segs[i].0 == s);
        }
    }
}

proof fn lemma_node_places(
    m: Map<TilePlace, NodeId>,
    k: TileKey,
    nodes: Seq<NodeId>,
    n: int,
    at: TilePlace,
)
    requires
        0 <= n <= nodes.len() <= 0x1_0000_0000,
    ensures
        ({
            let r = with_node_places(m, k, nodes, n);
            let here = (at.0, at.1, at.2) == (k.z, k.x, k.y) && at.3 < n;
            &&& here ==> r.contains_key(at) && r[at] == nodes[at.3 as int]
            &&& !here ==> (r.contains_key(at) <==> m.contains_key(at)) && (m.contains_key(at)
                ==> r[at] == m[at])
        }),
    decreases n,
{
    if n > 0 {
        lemma_node_places(m, k, nodes, n - 1, at);
    }
}

/// Whether segment `s` is recorded at the last place of a tile that names it.
pub open spec fn recorded_at(
    places: Map<u32, TilePlace>,
    k: TileKey,
    segs: Seq<SegmentId>,
    s: u32,
) -> bool {
    &&& places.contains_key(s)
    &&& exists|i: int|
        {
            &&& 0 <= i < segs.len()
            &&& (#[trigger] segs[i]).0 == s
            &&& places[s] == (k.z, k.x, k.y, i as u32)
            &&& forall|j: int| i < j < segs.len() ==> (#[trigger] segs[j]).0 != s
        }
}

/// A tile that is read is recorded as loaded, besides those recorded before, and so is one
/// that the archive does not hold; one that cannot be read is not. A tile that is read also
/// has the place of each of its segments and the node at each of its places recorded; what
/// was recorded of others stays.
pub proof fn law_tiles_are_recorded(m: LoaderModel, k: TileKey, b: Seq<u8>, s: u32, at: TilePlace)
    requires
        b.len() <= usize::MAX,
    ensures
        ({
            let r = loaded_at(m, k, b);
            let p = merged(m.load, b).0;
            let here = (at.0, at.1, at.2) == (k.z, k.x, k.y) && at.3 < p.nodes.len();
            let named = exists|i: int| 0 <= i < p.segs.len() && (#[trigger] p.segs[i]).0 == s;
            &&& b.len() == 0 ==> r == (LoaderModel {
                load: LoadModel {
                    graph: GraphModel {
                        loaded: m.load.graph.loaded.insert(k),
                        ..m.load.graph
                    },
                    ..m.load
                },
                ..m
            })
            &&& b.len() > 0 && !readable(m.load, b) ==> r.load == loaded(m.load, b) && r.seg_tile
                == m.seg_tile && r.node_tile == m.node_tile
            &&& b.len() > 0 && readable(m.load, b) ==> {
                let after = loaded(m.load, b);
                &&& r.load == (LoadModel {
                    graph: GraphModel { loaded: after.graph.loaded.insert(k), ..after.graph },
                    ..after
                })
                &&& named ==> recorded_at(r.seg_tile, k, p.segs, s)
                &&& !named ==> (r.seg_tile.contains_key(s) <==> m.seg_tile.contains_key(s)) && (
                m.seg_tile.contains_key(s) ==> r.seg_tile[s] == m.seg_tile[s])
                &&& here ==> r.node_tile.contains_key(at) && r.node_tile[at]
                    == p.nodes[at.3 as int]
                &&& !here ==> (r.node_tile.contains_key(at) <==> m.node_tile.contains_key(at)) && (
                m.node_tile.contains_key(at) ==> r.node_tile[at] == m.node_tile[at])
            }
        }),
{
    if b.len() > 0 && readable(m.load, b) {
        let p = merged(m.load, b).0;
        lemma_table_lengths(m.load, b);
        lemma_seg_places(m.seg_tile, k, p.segs, p.segs.len() as int, s);
        lemma_node_places(m.node_tile, k, p.nodes, p.nodes.len() as int, at);
    }
}

/// Whether so many records of nodes, and so many of segments, can each stand in `len` bytes.
pub open spec fn could_stand_in(len: nat, nodes: nat, segs: nat) -> bool {
    28 * nodes <= len && 32 * segs <= len
}

/// There is room for a payload just where there is an id for each node and each segment that
/// so many bytes could hold.
pub proof fn law_room_is_room_for_every_record(l: LoadModel, len: nat)
    ensures
        l.has_room(len) <==> forall|nodes: nat, segs: nat| #[trigger]
            could_stand_in(len, nodes, segs) ==> l.next_node + nodes <= 0xffff_ffff && l.next_seg
                + segs <= 0xffff_ffff,
{
    assert(could_stand_in(len, len / 28, len / 32));
}

proof fn lemma_absorbed<R>(
    p: Progress,
    read: spec_fn(int) -> Result<R, TileReadError>,
    step: spec_fn(Progress, R) -> Progress,
    n: int,
)
    ensures
        absorb(p, read, step, n).1 is None ==> forall|i: int|
            0 <= i < n ==> (#[trigger] read(i)) is Ok,
        absorb(p, read, step, n).1 matches Some(e) ==> exists|i: int|
            0 <= i < n && (#[trigger] read(i)) == Err::<R, TileReadError>(e) && forall|j: int|
                0 <= j < i ==> (#[trigger] read(j)) is Ok,
    decreases n,
{
    if n > 0 {
        lemma_absorbed(p, read, step, n - 1);
        if absorb(p, read, step, n - 1).1 is None {
            assert(read(n - 1) is Ok || read(n - 1) is Err);
        }
    }
}

/// Whether every record of a payload can be read.
pub open spec fn records_in_order(b: Seq<u8>) -> bool {
    let h = header_of(b);
    &&& forall|i: int| 0 <= i < h.nodes ==> (#[trigger] node_rec(b, h, i)) is Ok
    &&& forall|i: int| 0 <= i < h.segs ==> (#[trigger] seg_rec(b, h, i)) is Ok
    &&& forall|i: int| 0 <= i < h.restrs ==> (#[trigger] restr_rec(b, h, i)) is Ok
    &&& forall|i: int| 0 <= i < h.xrestrs ==> (#[trigger] xrestr_rec(b, h, i)) is Ok
}

/// Whether a record of a payload is refused for `e`.
pub open spec fn a_record_is_refused(b: Seq<u8>, e: TileReadError) -> bool {
    let h = header_of(b);
    ||| exists|i: int|
        0 <= i < h.nodes && (#[trigger] node_rec(b, h, i)) == Err::<NodeRec, TileReadError>(e)
    ||| exists|i: int|
        0 <= i < h.segs && (#[trigger] seg_rec(b, h, i)) == Err::<SegRec, TileReadError>(e)
    ||| exists|i: int|
        0 <= i < h.restrs && (#[trigger] restr_rec(b, h, i)) == Err::<RestrRec, TileReadError>(e)
    ||| exists|i: int|
        0 <= i < h.xrestrs && (#[trigger] xrestr_rec(b, h, i)) == Err::<XRestrRec, TileReadError>(
            e,
        )
}

/// A payload can be read just where it is in order as a whole and each of its records can be
/// read, whatever was read before it. Where one of them cannot, the payload is refused for
/// what is wrong with that record.
pub proof fn law_tiles_are_read_record_by_record(
    l: LoadModel,
    b: Seq<u8>,
    r: Result<(Seq<NodeId>, Seq<SegmentId>), TileReadError>,
)
    requires
        header_verdict(b, None),
        parse_result(l, b, r),
    ensures
        r is Ok <==> records_in_order(b),
        r is Ok <==> readable(l, b),
        r matches Err(e) ==> a_record_is_refused(b, e),
{
    let h = header_of(b);
    let start = Progress { load: l, nodes: Seq::empty(), segs: Seq::empty() };
    let p = after_nodes(l, b, h.nodes);
    let q = after_segs(l, b, h.segs);
    let s = after_restrs(l, b, h.restrs);
    lemma_absorbed(start, node_reader(b), |p: Progress, r: NodeRec| step_node(p, r), h.nodes);
    lemma_absorbed(p.0, seg_reader(b), |p: Progress, r: SegRec| step_seg(p, r), h.segs);
    lemma_absorbed(q.0, restr_reader(b), |p: Progress, r: RestrRec| step_restr(p, r), h.restrs);
    lemma_absorbed(s.0, xrestr_reader(b), |p: Progress, r: XRestrRec| step_xrestr(p, r), h.xrestrs);
    assert(forall|i: int| #[trigger] node_rec(b, h, i) == node_reader(b)(i));
    assert(forall|i: int| #[trigger] seg_rec(b, h, i) == seg_reader(b)(i));
    assert(forall|i: int| #[trigger] restr_rec(b, h, i) == restr_reader(b)(i));
    assert(forall|i: int| #[trigger] xrestr_rec(b, h, i) == xrestr_reader(b)(i));
    assert(forall|i: int| #[trigger] node_reader(b)(i) == node_rec(b, h, i));
    assert(forall|i: int| #[trigger] seg_reader(b)(i) == seg_rec(b, h, i));
    assert(forall|i: int| #[trigger] restr_reader(b)(i) == restr_rec(b, h, i));
    assert(forall|i: int| #[trigger] xrestr_reader(b)(i) == xrestr_rec(b, h, i));
}

proof fn lemma_node_ids_stay(l: LoadModel, b: Seq<u8>, n: int)
    ensures
        after_segs(l, b, n).0.load.node_ids == after_nodes(l, b, header_of(b).nodes).0.load.node_ids,
    decreases n,
{
    if n > 0 {
        lemma_node_ids_stay(l, b, n - 1);
    }
}

proof fn lemma_node_ids_stay_on(l: LoadModel, b: Seq<u8>, n: int)
    ensures
        after_restrs(l, b, n).0.load.node_ids == after_segs(
            l,
            b,
            header_of(b).segs,
        ).0.load.node_ids,
        after_xrestrs(l, b, n).0.load.node_ids == after_restrs(
            l,
            b,
            header_of(b).restrs,
        ).0.load.node_ids,
    decreases n,
{
    if n > 0 {
        lemma_node_ids_stay_on(l, b, n - 1);
    }
}

proof fn lemma_nodes_known(l: LoadModel, b: Seq<u8>, i: int, n: int)
    requires
        0 <= i < n,
        forall|j: int| 0 <= j <= i ==> (#[trigger] node_rec(b, header_of(b), j)) is Ok,
    ensures
        after_nodes(l, b, n).0.load.node_ids.contains_key(
            node_rec(b, header_of(b), i)->Ok_0.stable_id,
        ),
    decreases n,
{
    if n > i + 1 {
        lemma_nodes_known(l, b, i, n - 1);
    } else {
        lemma_nodes_read(l, b, i);
        assert(node_rec(b, header_of(b), i) is Ok);
    }
}

proof fn lemma_nodes_read(l: LoadModel, b: Seq<u8>, n: int)
    requires
        0 <= n,
        forall|j: int| 0 <= j < n ==> (#[trigger] node_rec(b, header_of(b), j)) is Ok,
    ensures
        after_nodes(l, b, n).1 is None,
    decreases n,
{
    if n > 0 {
        lemma_nodes_read(l, b, n - 1);
        assert(node_rec(b, header_of(b), n - 1) is Ok);
    }
}

/// The nodes before the first record that cannot be read are known after loading a tile,
/// whether or not the tile is refused.
pub proof fn law_refused_tiles_leave_the_nodes_before(l: LoadModel, b: Seq<u8>, i: int)
    requires
        header_verdict(b, None),
        0 <= i < header_of(b).nodes,
        forall|j: int| 0 <= j <= i ==> (#[trigger] node_rec(b, header_of(b), j)) is Ok,
    ensures
        loaded(l, b).node_ids.contains_key(node_rec(b, header_of(b), i)->Ok_0.stable_id),
{
    let h = header_of(b);
    lemma_nodes_known(l, b, i, h.nodes);
    lemma_node_ids_stay(l, b, h.segs);
    lemma_node_ids_stay_on(l, b, h.restrs);
    lemma_node_ids_stay_on(l, b, h.xrestrs);
}

} // verus!
