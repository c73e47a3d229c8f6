//! What is written into a tile payload is read back from it.
use vstd::prelude::*;

use crate::bytes::{
    i32_at, i32_bytes, lemma_i32_round_trip, lemma_u16_round_trip, lemma_u32_round_trip, u16_at,
    u16_bytes, u32_at, u32_bytes,
};
use crate::joined::{
    joined, lemma_joined_even, lemma_joined_piece, start_of,
};
use crate::text::text_of;
use crate::tile_format::{
    direction_of, header_of, header_verdict, magic, node_rec, pool_text, restr_rec, seg_rec,
    vertex_at, xrestr_rec, NodeRec, RestrRec, SegRec, TileHeader, TileReadError, XRestrRec,
};
use crate::tile_merge::{
    after_nodes, after_restrs, after_segs, after_xrestrs, readable, LoadModel,
};
use crate::tile_writer::{
    clipped, cross_record, group_record_lengths, header_record, intra_record, law_geom_blob_round_trip, lemma_vertex_at, low32,
    node_record, packed_attrs, seg_record, SegOut, TilePlan,
};

verus! {

/// Whether the format has room for a plan: each count fits its four bytes, and the
/// payload fits in memory.
pub open spec fn has_room(plan: TilePlan) -> bool {
    &&& plan.segs.len() < 0x1_0000_0000
    &&& plan.nodes.len() < 0x1_0000_0000
    &&& plan.intra.len() < 0x1_0000_0000
    &&& plan.cross.len() < 0x1_0000_0000
    &&& joined(plan.runs()).len() < 0x1_0000_0000
    &&& joined(plan.pieces()).len() < 0x1_0000_0000
    &&& plan.bytes().len() <= usize::MAX
}

/// The counts that a plan's payload promises.
pub open spec fn header_for(plan: TilePlan) -> TileHeader {
    TileHeader {
        segs: plan.segs.len() as int,
        nodes: plan.nodes.len() as int,
        restrs: plan.intra.len() as int,
        verts: joined(plan.runs()).len() as int,
        xrestrs: plan.cross.len() as int,
        pool: joined(plan.pieces()).len() as int,
    }
}

/// Whether `part` stands at `o` in `b`.
spec fn placed(b: Seq<u8>, o: int, part: Seq<u8>) -> bool {
    &&& 0 <= o
    &&& o + part.len() <= b.len()
    &&& b.subrange(o, o + part.len()) == part
}

/// A part of a part stands where both offsets add up to.
proof fn lemma_placed_part(b: Seq<u8>, o: int, part: Seq<u8>, k: int, sub: Seq<u8>)
    requires
        placed(b, o, part),
        placed(part, k, sub),
    ensures
        placed(b, o + k, sub),
{
    let s = b.subrange(o, o + part.len());
    assert(b.subrange(o + k, o + k + sub.len()) =~= s.subrange(k, k + sub.len()));
}

/// What stands between two other parts.
proof fn lemma_placed_middle(x: Seq<u8>, y: Seq<u8>, z: Seq<u8>)
    ensures
        placed(x + y + z, x.len() as int, y),
{
    assert((x + y + z).subrange(x.len() as int, x.len() + y.len() as int) =~= y);
}

/// Seven parts laid end to end.
proof fn lemma_placed_seven(
    p0: Seq<u8>,
    p1: Seq<u8>,
    p2: Seq<u8>,
    p3: Seq<u8>,
    p4: Seq<u8>,
    p5: Seq<u8>,
    p6: Seq<u8>,
)
    ensures
        ({
            let b = p0 + p1 + p2 + p3 + p4 + p5 + p6;
            let o2 = p0.len() + p1.len() as int;
            let o3 = o2 + p2.len();
            let o4 = o3 + p3.len();
            let o5 = o4 + p4.len();
            let o6 = o5 + p5.len();
            &&& b.len() == o6 + p6.len()
            &&& placed(b, 0, p0)
            &&& placed(b, p0.len() as int, p1)
            &&& placed(b, o2, p2)
            &&& placed(b, o3, p3)
            &&& placed(b, o4, p4)
            &&& placed(b, o5, p5)
            &&& placed(b, o6, p6)
        }),
{
    let b = p0 + p1 + p2 + p3 + p4 + p5 + p6;
    let none = Seq::<u8>::empty();
    assert(b =~= none + p0 + (p1 + p2 + p3 + p4 + p5 + p6));
    lemma_placed_middle(none, p0, p1 + p2 + p3 + p4 + p5 + p6);
    assert(b =~= p0 + p1 + (p2 + p3 + p4 + p5 + p6));
    lemma_placed_middle(p0, p1, p2 + p3 + p4 + p5 + p6);
    assert(b =~= (p0 + p1) + p2 + (p3 + p4 + p5 + p6));
    lemma_placed_middle(p0 + p1, p2, p3 + p4 + p5 + p6);
    assert(b =~= (p0 + p1 + p2) + p3 + (p4 + p5 + p6));
    lemma_placed_middle(p0 + p1 + p2, p3, p4 + p5 + p6);
    assert(b =~= (p0 + p1 + p2 + p3) + p4 + (p5 + p6));
    lemma_placed_middle(p0 + p1 + p2 + p3, p4, p5 + p6);
    assert(b =~= (p0 + p1 + p2 + p3 + p4) + p5 + p6);
    lemma_placed_middle(p0 + p1 + p2 + p3 + p4, p5, p6);
    assert(b =~= (p0 + p1 + p2 + p3 + p4 + p5) + p6 + none);
    lemma_placed_middle(p0 + p1 + p2 + p3 + p4 + p5, p6, none);
}

/// Records of one size laid end to end: where record `i` stands.
proof fn lemma_placed_record(b: Seq<u8>, off: int, recs: Seq<Seq<u8>>, size: int, i: int)
    requires
        0 <= i < recs.len(),
        0 <= size,
        placed(b, off, joined(recs)),
        forall|k: int| 0 <= k < recs.len() ==> (#[trigger] recs[k]).len() == size,
    ensures
        placed(b, off + size * i, recs[i]),
{
    lemma_joined_even(recs, size, i);
    lemma_joined_piece(recs, i);
    assert(recs[i].len() == size);
    assert(placed(joined(recs), size * i, recs[i]));
    lemma_placed_part(b, off, joined(recs), size * i, recs[i]);
}

proof fn lemma_even_len(recs: Seq<Seq<u8>>, size: int)
    requires
        forall|k: int| 0 <= k < recs.len() ==> (#[trigger] recs[k]).len() == size,
    ensures
        joined(recs).len() == size * recs.len(),
{
    lemma_joined_even(recs, size, recs.len() as int);
    assert(recs.take(recs.len() as int) =~= recs);
}

proof fn lemma_placed_u32(b: Seq<u8>, o: int, v: u32)
    requires
        placed(b, o, u32_bytes(v)),
    ensures
        u32_at(b, o) == v,
{
    lemma_u32_round_trip(b, o, v);
}

/// A header gives its counts back.
proof fn lemma_header_record(
    b: Seq<u8>,
    segs: u32,
    nodes: u32,
    restrs: u32,
    verts: u32,
    xrestrs: u32,
    pool: u32,
)
    requires
        placed(b, 0, header_record(segs, nodes, restrs, verts, xrestrs, pool)),
    ensures
        b.len() >= 40,
        b.take(4) == magic(),
        b[4] == 3,
        u32_at(b, 8) == segs,
        u32_at(b, 12) == nodes,
        u32_at(b, 16) == restrs,
        u32_at(b, 20) == verts,
        u32_at(b, 24) == xrestrs,
        u32_at(b, 28) == pool,
{
    reveal(header_record);
    let p = header_record(segs, nodes, restrs, verts, xrestrs, pool);
    assert(p.len() == 40);
    assert(p.subrange(0, 4) =~= magic());
    assert(p.subrange(8, 12) =~= u32_bytes(segs));
    assert(p.subrange(12, 16) =~= u32_bytes(nodes));
    assert(p.subrange(16, 20) =~= u32_bytes(restrs));
    assert(p.subrange(20, 24) =~= u32_bytes(verts));
    assert(p.subrange(24, 28) =~= u32_bytes(xrestrs));
    assert(p.subrange(28, 32) =~= u32_bytes(pool));
    assert(p[4] == 3);
    assert(b.subrange(0, 40)[4] == b[4]);
    lemma_placed_part(b, 0, p, 0, magic());
    assert(b.take(4) =~= b.subrange(0, 4));
    lemma_placed_part(b, 0, p, 8, u32_bytes(segs));
    lemma_placed_part(b, 0, p, 12, u32_bytes(nodes));
    lemma_placed_part(b, 0, p, 16, u32_bytes(restrs));
    lemma_placed_part(b, 0, p, 20, u32_bytes(verts));
    lemma_placed_part(b, 0, p, 24, u32_bytes(xrestrs));
    lemma_placed_part(b, 0, p, 28, u32_bytes(pool));
    lemma_placed_u32(b, 8, segs);
    lemma_placed_u32(b, 12, nodes);
    lemma_placed_u32(b, 16, restrs);
    lemma_placed_u32(b, 20, verts);
    lemma_placed_u32(b, 24, xrestrs);
    lemma_placed_u32(b, 28, pool);
}

/// A segment record gives its fields back.
proof fn lemma_seg_record(
    b: Seq<u8>,
    o: int,
    start: u32,
    end: u32,
    first: u32,
    len: u16,
    length_cm: u32,
    attrs: u8,
    id_off: u32,
    id_len: u8,
)
    requires
        placed(b, o, seg_record(start, end, first, len, length_cm, attrs, id_off, id_len)),
    ensures
        u32_at(b, o) == start,
        u32_at(b, o + 4) == end,
        u32_at(b, o + 8) == first,
        u16_at(b, o + 12) == len,
        u32_at(b, o + 14) == length_cm,
        b[o + 18] == attrs,
        u32_at(b, o + 20) == id_off,
        b[o + 24] == id_len,
{
    reveal(seg_record);
    let p = seg_record(start, end, first, len, length_cm, attrs, id_off, id_len);
    assert(p.len() == 32);
    assert(p.subrange(0, 4) =~= u32_bytes(start));
    assert(p.subrange(4, 8) =~= u32_bytes(end));
    assert(p.subrange(8, 12) =~= u32_bytes(first));
    assert(p.subrange(12, 14) =~= u16_bytes(len));
    assert(p.subrange(14, 18) =~= u32_bytes(length_cm));
    assert(p.subrange(20, 24) =~= u32_bytes(id_off));
    assert(p[18] == attrs && p[24] == id_len);
    assert(b.subrange(o, o + 32)[18] == b[o + 18]);
    assert(b.subrange(o, o + 32)[24] == b[o + 24]);
    lemma_placed_part(b, o, p, 0, u32_bytes(start));
    lemma_placed_part(b, o, p, 4, u32_bytes(end));
    lemma_placed_part(b, o, p, 8, u32_bytes(first));
    lemma_placed_part(b, o, p, 12, u16_bytes(len));
    lemma_placed_part(b, o, p, 14, u32_bytes(length_cm));
    lemma_placed_part(b, o, p, 20, u32_bytes(id_off));
    lemma_placed_u32(b, o, start);
    lemma_placed_u32(b, o + 4, end);
    lemma_placed_u32(b, o + 8, first);
    lemma_u16_round_trip(b, o + 12, len);
    lemma_placed_u32(b, o + 14, length_cm);
    lemma_placed_u32(b, o + 20, id_off);
}

/// A node record gives its fields back.
proof fn lemma_node_record(
    b: Seq<u8>,
    o: int,
    lon: i32,
    lat: i32,
    id_off: u32,
    id_len: u8,
    boundary: bool,
)
    requires
        placed(b, o, node_record(lon, lat, id_off, id_len, boundary)),
    ensures
        i32_at(b, o) == lon,
        i32_at(b, o + 4) == lat,
        u32_at(b, o + 8) == id_off,
        b[o + 12] == id_len,
        (b[o + 24] % 2 == 1) == boundary,
{
    reveal(node_record);
    let p = node_record(lon, lat, id_off, id_len, boundary);
    assert(p.len() == 28);
    assert(p.subrange(0, 4) =~= i32_bytes(lon));
    assert(p.subrange(4, 8) =~= i32_bytes(lat));
    assert(p.subrange(8, 12) =~= u32_bytes(id_off));
    assert(p[12] == id_len);
    assert(p[24] == if boundary {
        1u8
    } else {
        0u8
    });
    assert(b.subrange(o, o + 28)[12] == b[o + 12]);
    assert(b.subrange(o, o + 28)[24] == b[o + 24]);
    lemma_placed_part(b, o, p, 0, i32_bytes(lon));
    lemma_placed_part(b, o, p, 4, i32_bytes(lat));
    lemma_placed_part(b, o, p, 8, u32_bytes(id_off));
    lemma_i32_round_trip(b, o, lon);
    lemma_i32_round_trip(b, o + 4, lat);
    lemma_placed_u32(b, o + 8, id_off);
}

/// A restriction record gives its fields back.
proof fn lemma_intra_record(b: Seq<u8>, o: int, from: u32, via: u32, to: u32, flags: u8)
    requires
        placed(b, o, intra_record(from, via, to, flags)),
    ensures
        u32_at(b, o) == from,
        u32_at(b, o + 4) == via,
        u32_at(b, o + 8) == to,
{
    reveal(intra_record);
    let p = intra_record(from, via, to, flags);
    assert(p.subrange(0, 4) =~= u32_bytes(from));
    assert(p.subrange(4, 8) =~= u32_bytes(via));
    assert(p.subrange(8, 12) =~= u32_bytes(to));
    lemma_placed_part(b, o, p, 0, u32_bytes(from));
    lemma_placed_part(b, o, p, 4, u32_bytes(via));
    lemma_placed_part(b, o, p, 8, u32_bytes(to));
    lemma_placed_u32(b, o, from);
    lemma_placed_u32(b, o + 4, via);
    lemma_placed_u32(b, o + 8, to);
}

/// A cross restriction record gives its fields back.
proof fn lemma_cross_record(
    b: Seq<u8>,
    o: int,
    from_off: u32,
    from_len: u8,
    via: u32,
    to_off: u32,
    to_len: u8,
    flags: u8,
)
    requires
        placed(b, o, cross_record(from_off, from_len, via, to_off, to_len, flags)),
    ensures
        u32_at(b, o) == from_off,
        b[o + 4] == from_len,
        u32_at(b, o + 5) == via,
        u32_at(b, o + 9) == to_off,
        b[o + 13] == to_len,
{
    reveal(cross_record);
    let p = cross_record(from_off, from_len, via, to_off, to_len, flags);
    assert(p.len() == 16);
    assert(p.subrange(0, 4) =~= u32_bytes(from_off));
    assert(p.subrange(5, 9) =~= u32_bytes(via));
    assert(p.subrange(9, 13) =~= u32_bytes(to_off));
    assert(p[4] == from_len && p[13] == to_len);
    assert(b.subrange(o, o + 16)[4] == b[o + 4]);
    assert(b.subrange(o, o + 16)[13] == b[o + 13]);
    lemma_placed_part(b, o, p, 0, u32_bytes(from_off));
    lemma_placed_part(b, o, p, 5, u32_bytes(via));
    lemma_placed_part(b, o, p, 9, u32_bytes(to_off));
    lemma_placed_u32(b, o, from_off);
    lemma_placed_u32(b, o + 5, via);
    lemma_placed_u32(b, o + 9, to_off);
}

/// Whether the sections of a plan stand in `b` where the plan's header says.
spec fn laid_out(plan: TilePlan, b: Seq<u8>) -> bool {
    let h = header_for(plan);
    &&& b.len() == h.min_len()
    &&& placed(b, 0, plan.header_bytes())
    &&& placed(b, h.seg_off(), plan.seg_section())
    &&& placed(b, h.geom_off(), plan.geom_section())
    &&& placed(b, h.node_off(), plan.node_section())
    &&& placed(b, h.restr_off(), plan.intra_section())
    &&& placed(b, h.xrestr_off(), plan.cross_section())
    &&& placed(b, h.pool_off(), joined(plan.pieces()))
}

proof fn lemma_laid_out(plan: TilePlan)
    ensures
        laid_out(plan, plan.bytes()),
{
    broadcast use group_record_lengths;

    lemma_even_len(Seq::new(plan.segs.len(), |i: int| plan.seg_bytes(i)), 32);
    lemma_even_len(Seq::new(plan.nodes.len(), |i: int| plan.node_bytes(i)), 28);
    lemma_even_len(Seq::new(plan.intra.len(), |i: int| plan.intra_bytes(i)), 16);
    lemma_even_len(Seq::new(plan.cross.len(), |i: int| plan.cross_bytes(i)), 16);
    law_geom_blob_round_trip(joined(plan.runs()));
    assert(plan.header_bytes().len() == 40);
    lemma_placed_seven(
        plan.header_bytes(),
        plan.seg_section(),
        plan.geom_section(),
        plan.node_section(),
        plan.intra_section(),
        plan.cross_section(),
        joined(plan.pieces()),
    );
}

/// A plan's payload is in order as a whole, and its header holds the plan's counts.
pub proof fn law_payload_header_reads_back(plan: TilePlan)
    requires
        has_room(plan),
    ensures
        header_verdict(plan.bytes(), None),
        header_of(plan.bytes()) == header_for(plan),
{
    lemma_laid_out(plan);
    lemma_header_reads_back(plan, plan.bytes());
}

proof fn lemma_header_reads_back(plan: TilePlan, b: Seq<u8>)
    requires
        plan.segs.len() < 0x1_0000_0000,
        plan.nodes.len() < 0x1_0000_0000,
        plan.intra.len() < 0x1_0000_0000,
        plan.cross.len() < 0x1_0000_0000,
        joined(plan.runs()).len() < 0x1_0000_0000,
        joined(plan.pieces()).len() < 0x1_0000_0000,
        b.len() == header_for(plan).min_len(),
        b.len() <= usize::MAX,
        placed(b, 0, plan.header_bytes()),
    ensures
        header_verdict(b, None),
        header_of(b) == header_for(plan),
{
    lemma_counts_read_back(b, header_for(plan));
}

proof fn lemma_counts_read_back(b: Seq<u8>, h: TileHeader)
    requires
        0 <= h.segs < 0x1_0000_0000,
        0 <= h.nodes < 0x1_0000_0000,
        0 <= h.restrs < 0x1_0000_0000,
        0 <= h.verts < 0x1_0000_0000,
        0 <= h.xrestrs < 0x1_0000_0000,
        0 <= h.pool < 0x1_0000_0000,
        b.len() == h.min_len(),
        b.len() <= usize::MAX,
        placed(
            b,
            0,
            header_record(
                low32(h.segs),
                low32(h.nodes),
                low32(h.restrs),
                low32(h.verts),
                low32(h.xrestrs),
                low32(h.pool),
            ),
        ),
    ensures
        header_verdict(b, None),
        header_of(b) == h,
{
    lemma_header_record(
        b,
        low32(h.segs),
        low32(h.nodes),
        low32(h.restrs),
        low32(h.verts),
        low32(h.xrestrs),
        low32(h.pool),
    );
    assert(header_of(b) == h);
}

/// Text `k` of the string pool.
proof fn lemma_pool_text(plan: TilePlan, b: Seq<u8>, k: int)
    requires
        joined(plan.pieces()).len() < 0x1_0000_0000,
        placed(b, header_for(plan).pool_off(), joined(plan.pieces())),
        0 <= k < plan.pieces().len(),
    ensures
        0 <= start_of(plan.pieces(), k) < 0x1_0000_0000,
        pool_text(
            b,
            header_for(plan),
            start_of(plan.pieces(), k),
            plan.pieces()[k].len() as int,
        ) == match text_of(plan.pieces()[k]) {
            Some(t) => Ok::<Seq<char>, TileReadError>(t),
            None => Err::<Seq<char>, TileReadError>(TileReadError::InvalidUtf8),
        },
{
    let pieces = plan.pieces();
    let off = start_of(pieces, k);
    lemma_joined_piece(pieces, k);
    assert(placed(joined(pieces), off, pieces[k]));
    lemma_placed_part(b, header_for(plan).pool_off(), joined(pieces), off, pieces[k]);
}

proof fn lemma_node_reads_back(plan: TilePlan, b: Seq<u8>, i: int, stable_id: Seq<char>)
    requires
        joined(plan.pieces()).len() < 0x1_0000_0000,
        placed(b, header_for(plan).pool_off(), joined(plan.pieces())),
        placed(b, header_for(plan).node_off(), plan.node_section()),
        0 <= i < plan.nodes.len(),
        text_of(plan.nodes[i].id) == Some(stable_id),
        plan.nodes[i].id.len() <= 255,
    ensures
        node_rec(b, header_for(plan), i) == Ok::<NodeRec, TileReadError>(
            NodeRec {
                lon: plan.nodes[i].lon,
                lat: plan.nodes[i].lat,
                stable_id,
                is_boundary: plan.nodes[i].is_boundary,
            },
        ),
{
    broadcast use group_record_lengths;

    let h = header_for(plan);
    let n = plan.nodes[i];
    let k = plan.segs.len() + i;
    let recs = Seq::new(plan.nodes.len(), |j: int| plan.node_bytes(j));
    lemma_placed_record(b, h.node_off(), recs, 28, i);
    assert(plan.pieces()[k] == n.id);
    lemma_pool_text(plan, b, k);
    lemma_node_record(
        b,
        h.node_off() + 28 * i,
        n.lon,
        n.lat,
        low32(start_of(plan.pieces(), k)),
        n.id.len() as u8,
        n.is_boundary,
    );
}

/// Node record `i` says what the plan says, if the node's stable id is text of at
/// most 255 bytes.
pub proof fn law_node_reads_back(plan: TilePlan, i: int, stable_id: Seq<char>)
    requires
        has_room(plan),
        0 <= i < plan.nodes.len(),
        text_of(plan.nodes[i].id) == Some(stable_id),
        plan.nodes[i].id.len() <= 255,
    ensures
        node_rec(plan.bytes(), header_for(plan), i) == Ok::<NodeRec, TileReadError>(
            NodeRec {
                lon: plan.nodes[i].lon,
                lat: plan.nodes[i].lat,
                stable_id,
                is_boundary: plan.nodes[i].is_boundary,
            },
        ),
{
    lemma_laid_out(plan);
    lemma_node_reads_back(plan, plan.bytes(), i, stable_id);
}

proof fn lemma_segment_reads_back(plan: TilePlan, b: Seq<u8>, i: int, stable_id: Seq<char>)
    requires
        joined(plan.pieces()).len() < 0x1_0000_0000,
        joined(plan.runs()).len() < 0x1_0000_0000,
        placed(b, header_for(plan).pool_off(), joined(plan.pieces())),
        placed(b, header_for(plan).seg_off(), plan.seg_section()),
        placed(b, header_for(plan).geom_off(), plan.geom_section()),
        0 <= i < plan.segs.len(),
        plan.segs[i].start < plan.nodes.len(),
        plan.segs[i].end < plan.nodes.len(),
        2 <= plan.segs[i].geom.len() <= 0xffff,
        text_of(plan.segs[i].id) == Some(stable_id),
        plan.segs[i].id.len() <= 255,
    ensures
        seg_rec(b, header_for(plan), i) == Ok::<SegRec, TileReadError>(
            SegRec {
                start: plan.segs[i].start as int,
                end: plan.segs[i].end as int,
                geometry: plan.segs[i].geom,
                length_cm: plan.segs[i].length_cm,
                frc: (plan.segs[i].attrs as int % 8) as u8,
                fow: (plan.segs[i].attrs as int / 8 % 8) as u8,
                direction: direction_of(plan.segs[i].attrs as int / 64),
                stable_id,
            },
        ),
{
    broadcast use group_record_lengths;

    let h = header_for(plan);
    let s = plan.segs[i];
    let recs = Seq::new(plan.segs.len(), |j: int| plan.seg_bytes(j));
    lemma_placed_record(b, h.seg_off(), recs, 32, i);
    assert(plan.pieces()[i] == s.id);
    lemma_pool_text(plan, b, i);
    lemma_joined_piece(plan.runs(), i);
    assert(plan.runs()[i] == s.geom);
    lemma_geometry_reads_back(plan, b, i);
    lemma_seg_fields_read_back(
        b,
        h,
        i,
        s,
        start_of(plan.runs(), i),
        start_of(plan.pieces(), i),
        stable_id,
    );
}

/// A segment record in its place, with its text and its vertices in theirs.
proof fn lemma_seg_fields_read_back(
    b: Seq<u8>,
    h: TileHeader,
    i: int,
    s: SegOut,
    first: int,
    id_off: int,
    stable_id: Seq<char>,
)
    requires
        s.start < h.nodes,
        s.end < h.nodes,
        2 <= s.geom.len() <= 0xffff,
        s.id.len() <= 255,
        0 <= first,
        first + s.geom.len() <= h.verts < 0x1_0000_0000,
        0 <= id_off < 0x1_0000_0000,
        placed(
            b,
            h.seg_off() + 32 * i,
            seg_record(
                s.start,
                s.end,
                low32(first),
                (s.geom.len() % 0x1_0000) as u16,
                s.length_cm,
                s.attrs,
                low32(id_off),
                s.id.len() as u8,
            ),
        ),
        pool_text(b, h, id_off, s.id.len() as int) == Ok::<Seq<char>, TileReadError>(stable_id),
        Seq::new(s.geom.len(), |k: int| vertex_at(b, h, first + k)) == s.geom,
    ensures
        seg_rec(b, h, i) == Ok::<SegRec, TileReadError>(
            SegRec {
                start: s.start as int,
                end: s.end as int,
                geometry: s.geom,
                length_cm: s.length_cm,
                frc: (s.attrs as int % 8) as u8,
                fow: (s.attrs as int / 8 % 8) as u8,
                direction: direction_of(s.attrs as int / 64),
                stable_id,
            },
        ),
{
    lemma_seg_record(
        b,
        h.seg_off() + 32 * i,
        s.start,
        s.end,
        low32(first),
        (s.geom.len() % 0x1_0000) as u16,
        s.length_cm,
        s.attrs,
        low32(id_off),
        s.id.len() as u8,
    );
}

/// The vertices of segment `i`.
proof fn lemma_geometry_reads_back(plan: TilePlan, b: Seq<u8>, i: int)
    requires
        placed(b, header_for(plan).geom_off(), plan.geom_section()),
        0 <= i < plan.segs.len(),
    ensures
        Seq::new(
            plan.segs[i].geom.len(),
            |k: int| vertex_at(b, header_for(plan), start_of(plan.runs(), i) + k),
        ) == plan.segs[i].geom,
{
    let h = header_for(plan);
    let g = plan.segs[i].geom;
    let first = start_of(plan.runs(), i);
    let verts = joined(plan.runs());
    lemma_joined_piece(plan.runs(), i);
    assert(plan.runs()[i] == g);
    law_geom_blob_round_trip(verts);
    assert forall|k: int| 0 <= k < g.len() implies vertex_at(b, h, first + k) == g[k] by {
        lemma_vertex_at(verts, b, h.geom_off(), first + k);
        assert(verts.subrange(first, first + g.len())[k] == verts[first + k]);
    }
    assert(Seq::new(g.len(), |k: int| vertex_at(b, h, first + k)) =~= g);
}

/// Segment record `i` says what the plan says, if its nodes are there, it has 2 to
/// 65535 vertices, and its stable id is text of at most 255 bytes.
pub proof fn law_segment_reads_back(plan: TilePlan, i: int, stable_id: Seq<char>)
    requires
        has_room(plan),
        0 <= i < plan.segs.len(),
        plan.segs[i].start < plan.nodes.len(),
        plan.segs[i].end < plan.nodes.len(),
        2 <= plan.segs[i].geom.len() <= 0xffff,
        text_of(plan.segs[i].id) == Some(stable_id),
        plan.segs[i].id.len() <= 255,
    ensures
        seg_rec(plan.bytes(), header_for(plan), i) == Ok::<SegRec, TileReadError>(
            SegRec {
                start: plan.segs[i].start as int,
                end: plan.segs[i].end as int,
                geometry: plan.segs[i].geom,
                length_cm: plan.segs[i].length_cm,
                frc: (plan.segs[i].attrs as int % 8) as u8,
                fow: (plan.segs[i].attrs as int / 8 % 8) as u8,
                direction: direction_of(plan.segs[i].attrs as int / 64),
                stable_id,
            },
        ),
{
    lemma_laid_out(plan);
    lemma_segment_reads_back(plan, plan.bytes(), i, stable_id);
}

/// The attributes that were packed into one byte are unpacked unchanged.
pub proof fn law_attrs_unpack(frc: u8, fow: u8, direction: u8)
    requires
        frc < 8,
        fow < 8,
        direction < 4,
    ensures
        packed_attrs(frc, fow, direction) as int % 8 == frc,
        packed_attrs(frc, fow, direction) as int / 8 % 8 == fow,
        packed_attrs(frc, fow, direction) as int / 64 == direction,
{
}

/// Restriction record `i` says what the plan says, if its segments and node are
/// there.
pub proof fn law_restriction_reads_back(plan: TilePlan, i: int)
    requires
        has_room(plan),
        0 <= i < plan.intra.len(),
        plan.intra[i].from_seg < plan.segs.len(),
        plan.intra[i].to_seg < plan.segs.len(),
        plan.intra[i].via_node < plan.nodes.len(),
    ensures
        restr_rec(plan.bytes(), header_for(plan), i) == Ok::<RestrRec, TileReadError>(
            RestrRec {
                from: plan.intra[i].from_seg as int,
                via: plan.intra[i].via_node as int,
                to: plan.intra[i].to_seg as int,
            },
        ),
{
    lemma_laid_out(plan);
    lemma_restriction_reads_back(plan, plan.bytes(), i);
}

proof fn lemma_restriction_reads_back(plan: TilePlan, b: Seq<u8>, i: int)
    requires
        placed(b, header_for(plan).restr_off(), plan.intra_section()),
        0 <= i < plan.intra.len(),
        plan.intra[i].from_seg < plan.segs.len(),
        plan.intra[i].to_seg < plan.segs.len(),
        plan.intra[i].via_node < plan.nodes.len(),
    ensures
        restr_rec(b, header_for(plan), i) == Ok::<RestrRec, TileReadError>(
            RestrRec {
                from: plan.intra[i].from_seg as int,
                via: plan.intra[i].via_node as int,
                to: plan.intra[i].to_seg as int,
            },
        ),
{
    broadcast use group_record_lengths;

    let h = header_for(plan);
    let r = plan.intra[i];
    let recs = Seq::new(plan.intra.len(), |j: int| plan.intra_bytes(j));
    lemma_placed_record(b, h.restr_off(), recs, 16, i);
    lemma_intra_record(b, h.restr_off() + 16 * i, r.from_seg, r.via_node, r.to_seg, r.flags);
}

/// The two texts of cross restriction `i` in the string pool.
proof fn lemma_cross_pieces(plan: TilePlan, i: int)
    requires
        0 <= i < plan.cross.len(),
    ensures
        ({
            let k = plan.segs.len() + plan.nodes.len() + 2 * i;
            &&& k + 1 < plan.pieces().len()
            &&& plan.pieces()[k] == clipped(plan.cross[i].from)
            &&& plan.pieces()[k + 1] == clipped(plan.cross[i].to)
        }),
{
    let k = plan.segs.len() + plan.nodes.len() + 2 * i;
    assert(plan.pieces()[k] == plan.cross_pieces()[2 * i]);
    assert(plan.pieces()[k + 1] == plan.cross_pieces()[2 * i + 1]);
}

proof fn lemma_cross_reads_back(
    plan: TilePlan,
    b: Seq<u8>,
    i: int,
    from_id: Seq<char>,
    to_id: Seq<char>,
)
    requires
        joined(plan.pieces()).len() < 0x1_0000_0000,
        placed(b, header_for(plan).pool_off(), joined(plan.pieces())),
        placed(b, header_for(plan).xrestr_off(), plan.cross_section()),
        0 <= i < plan.cross.len(),
        plan.cross[i].via < plan.nodes.len(),
        text_of(plan.cross[i].from) == Some(from_id),
        text_of(plan.cross[i].to) == Some(to_id),
        plan.cross[i].from.len() <= 255,
        plan.cross[i].to.len() <= 255,
    ensures
        xrestr_rec(b, header_for(plan), i) == Ok::<XRestrRec, TileReadError>(
            XRestrRec { from_id, via: plan.cross[i].via as int, to_id },
        ),
{
    broadcast use group_record_lengths;

    let h = header_for(plan);
    let r = plan.cross[i];
    let k = plan.segs.len() + plan.nodes.len() + 2 * i;
    let recs = Seq::new(plan.cross.len(), |j: int| plan.cross_bytes(j));
    lemma_placed_record(b, h.xrestr_off(), recs, 16, i);
    lemma_cross_pieces(plan, i);
    lemma_pool_text(plan, b, k);
    lemma_pool_text(plan, b, k + 1);
    lemma_cross_record(
        b,
        h.xrestr_off() + 16 * i,
        low32(start_of(plan.pieces(), k)),
        r.from.len() as u8,
        r.via,
        low32(start_of(plan.pieces(), k + 1)),
        r.to.len() as u8,
        r.flags,
    );
}

/// Cross restriction record `i` says what the plan says, if its node is there and
/// its stable ids are text of at most 255 bytes.
pub proof fn law_cross_restriction_reads_back(
    plan: TilePlan,
    i: int,
    from_id: Seq<char>,
    to_id: Seq<char>,
)
    requires
        has_room(plan),
        0 <= i < plan.cross.len(),
        plan.cross[i].via < plan.nodes.len(),
        text_of(plan.cross[i].from) == Some(from_id),
        text_of(plan.cross[i].to) == Some(to_id),
        plan.cross[i].from.len() <= 255,
        plan.cross[i].to.len() <= 255,
    ensures
        xrestr_rec(plan.bytes(), header_for(plan), i) == Ok::<XRestrRec, TileReadError>(
            XRestrRec { from_id, via: plan.cross[i].via as int, to_id },
        ),
{
    lemma_laid_out(plan);
    lemma_cross_reads_back(plan, plan.bytes(), i, from_id, to_id);
}

/// Whether an identifier is text that the format has room for.
pub open spec fn storable(id: Seq<u8>) -> bool {
    id.len() <= 255 && text_of(id) is Some
}

/// Whether everything in a plan can be written and read: the counts fit, every
/// identifier is text of at most 255 bytes, every segment has 2 to 65535 vertices,
/// and every local index is there.
pub open spec fn loadable(plan: TilePlan) -> bool {
    &&& has_room(plan)
    &&& forall|i: int| 0 <= i < plan.nodes.len() ==> storable((#[trigger] plan.nodes[i]).id)
    &&& forall|i: int|
        0 <= i < plan.segs.len() ==> {
            let s = #[trigger] plan.segs[i];
            &&& storable(s.id)
            &&& s.start < plan.nodes.len()
            &&& s.end < plan.nodes.len()
            &&& 2 <= s.geom.len() <= 0xffff
        }
    &&& forall|i: int|
        0 <= i < plan.intra.len() ==> {
            let r = #[trigger] plan.intra[i];
            &&& r.from_seg < plan.segs.len()
            &&& r.to_seg < plan.segs.len()
            &&& r.via_node < plan.nodes.len()
        }
    &&& forall|i: int|
        0 <= i < plan.cross.len() ==> {
            let r = #[trigger] plan.cross[i];
            &&& storable(r.from)
            &&& storable(r.to)
            &&& r.via < plan.nodes.len()
        }
}

proof fn lemma_nodes_readable(l: LoadModel, plan: TilePlan, n: int)
    requires
        loadable(plan),
        header_of(plan.bytes()) == header_for(plan),
        0 <= n <= plan.nodes.len(),
    ensures
        after_nodes(l, plan.bytes(), n).1 is None,
    decreases n,
{
    if n > 0 {
        lemma_nodes_readable(l, plan, n - 1);
        assert(storable(plan.nodes[n - 1].id));
        law_node_reads_back(plan, n - 1, text_of(plan.nodes[n - 1].id)->Some_0);
    }
}

proof fn lemma_segs_readable(l: LoadModel, plan: TilePlan, n: int)
    requires
        loadable(plan),
        header_of(plan.bytes()) == header_for(plan),
        0 <= n <= plan.segs.len(),
    ensures
        after_segs(l, plan.bytes(), n).1 is None,
    decreases n,
{
    if n > 0 {
        lemma_segs_readable(l, plan, n - 1);
        assert(storable(plan.segs[n - 1].id));
        law_segment_reads_back(plan, n - 1, text_of(plan.segs[n - 1].id)->Some_0);
    } else {
        lemma_nodes_readable(l, plan, plan.nodes.len() as int);
    }
}

proof fn lemma_restrs_readable(l: LoadModel, plan: TilePlan, n: int)
    requires
        loadable(plan),
        header_of(plan.bytes()) == header_for(plan),
        0 <= n <= plan.intra.len(),
    ensures
        after_restrs(l, plan.bytes(), n).1 is None,
    decreases n,
{
    if n > 0 {
        lemma_restrs_readable(l, plan, n - 1);
        assert(plan.intra[n - 1].from_seg < plan.segs.len());
        law_restriction_reads_back(plan, n - 1);
    } else {
        lemma_segs_readable(l, plan, plan.segs.len() as int);
    }
}

proof fn lemma_xrestrs_readable(l: LoadModel, plan: TilePlan, n: int)
    requires
        loadable(plan),
        header_of(plan.bytes()) == header_for(plan),
        0 <= n <= plan.cross.len(),
    ensures
        after_xrestrs(l, plan.bytes(), n).1 is None,
    decreases n,
{
    if n > 0 {
        lemma_xrestrs_readable(l, plan, n - 1);
        assert(storable(plan.cross[n - 1].from));
        law_cross_restriction_reads_back(
            plan,
            n - 1,
            text_of(plan.cross[n - 1].from)->Some_0,
            text_of(plan.cross[n - 1].to)->Some_0,
        );
    } else {
        lemma_restrs_readable(l, plan, plan.intra.len() as int);
    }
}

/// Every payload of a loadable plan is read without error, whatever was loaded
/// before it.
pub proof fn law_written_tiles_load(l: LoadModel, plan: TilePlan)
    requires
        loadable(plan),
    ensures
        readable(l, plan.bytes()),
{
    law_payload_header_reads_back(plan);
    lemma_xrestrs_readable(l, plan, plan.cross.len() as int);
}

/// The flags of a restriction stand in byte 12 of its record, those of a cross restriction
/// in byte 14, and in a payload there is nothing behind the string pool.
pub proof fn law_flags_are_written(plan: TilePlan, i: int)
    ensures
        ({
            let b = plan.bytes();
            let h = header_for(plan);
            &&& b.len() == 40 + 32 * h.segs + 8 * h.verts + 28 * h.nodes + 16 * h.restrs + 16
                * h.xrestrs + h.pool
            &&& 0 <= i < plan.intra.len() ==> b[40 + 32 * h.segs + 8 * h.verts + 28 * h.nodes + 16
                * i + 12] == plan.intra[i].flags
            &&& 0 <= i < plan.cross.len() ==> b[40 + 32 * h.segs + 8 * h.verts + 28 * h.nodes + 16
                * h.restrs + 16 * i + 14] == plan.cross[i].flags
        }),
{
    lemma_laid_out(plan);
    let b = plan.bytes();
    if 0 <= i < plan.intra.len() {
        lemma_intra_flags(plan, b, i);
    }
    if 0 <= i < plan.cross.len() {
        lemma_cross_flags(plan, b, i);
    }
}

proof fn lemma_intra_flags(plan: TilePlan, b: Seq<u8>, i: int)
    requires
        placed(b, header_for(plan).restr_off(), plan.intra_section()),
        0 <= i < plan.intra.len(),
    ensures
        b[header_for(plan).restr_off() + 16 * i + 12] == plan.intra[i].flags,
{
    broadcast use group_record_lengths;

    let h = header_for(plan);
    let r = plan.intra[i];
    let recs = Seq::new(plan.intra.len(), |j: int| plan.intra_bytes(j));
    lemma_placed_record(b, h.restr_off(), recs, 16, i);
    lemma_flags_of_record(b, h.restr_off() + 16 * i, r.from_seg, r.via_node, r.to_seg, r.flags);
}

proof fn lemma_flags_of_record(b: Seq<u8>, o: int, from: u32, over: u32, to: u32, flags: u8)
    requires
        placed(b, o, intra_record(from, over, to, flags)),
    ensures
        b[o + 12] == flags,
{
    reveal(intra_record);
    let p = intra_record(from, over, to, flags);
    assert(p[12] == flags);
    assert(b.subrange(o, o + p.len())[12] == b[o + 12]);
}

proof fn lemma_cross_flags(plan: TilePlan, b: Seq<u8>, i: int)
    requires
        placed(b, header_for(plan).xrestr_off(), plan.cross_section()),
        0 <= i < plan.cross.len(),
    ensures
        b[header_for(plan).xrestr_off() + 16 * i + 14] == plan.cross[i].flags,
{
    broadcast use group_record_lengths;

    let h = header_for(plan);
    let recs = Seq::new(plan.cross.len(), |j: int| plan.cross_bytes(j));
    lemma_placed_record(b, h.xrestr_off(), recs, 16, i);
    lemma_flags_of_cross(plan, b, h.xrestr_off() + 16 * i, i);
}

proof fn lemma_flags_of_cross(plan: TilePlan, b: Seq<u8>, o: int, i: int)
    requires
        placed(b, o, plan.cross_bytes(i)),
    ensures
        b[o + 14] == plan.cross[i].flags,
{
    reveal(cross_record);
    let p = plan.cross_bytes(i);
    assert(p[14] == plan.cross[i].flags);
    assert(b.subrange(o, o + p.len())[14] == b[o + 14]);
}

} // verus!
