//! Reading tile payloads into the in-memory network.
use std::collections::HashMap;
use vstd::hash_map::StringHashMap;
use vstd::prelude::*;

use crate::bytes::{i32_le, u16_le, u32_le};
use crate::graph::{
    Direction, Graph, GraphModel, NetworkNode, NetworkSegment, NodeId, SegmentId, TileKey,
    TurnRestriction,
};
use crate::text::decode_text;
use crate::tile_format::{
    header_of, header_verdict, magic, node_rec, pool_text, restr_rec, seg_rec, vertex_at,
    xrestr_rec, NodeRec, RestrRec, SegRec, TileReadError, XRestrRec,
};
use crate::tile_laws::{
    law_loading_keeps_consistent, law_reading_keeps_the_tables, law_recording_keeps_consistent,
    law_stitching_keeps_consistent, lemma_table_lengths, tables_kept,
};
use crate::tile_merge::{
    after_nodes, after_restrs, after_segs, after_xrestrs, carrying, lemma_nodes_stop,
    lemma_restrs_stop, lemma_segs_stop, lemma_xrestrs_stop, loaded, merged, parse_result,
    parsed_load, readable, resolved_turns, segments_with, stitched, taking_node, taking_seg,
    turns_between, turns_into, unresolved, with_turns, LoadModel, PendingModel, Progress,
};

verus! {

/// The counts and section offsets of a payload whose header is in order.
struct Layout {
    segs: usize,
    nodes: usize,
    restrs: usize,
    verts: usize,
    xrestrs: usize,
    pool: usize,
    geom_off: usize,
    node_off: usize,
    restr_off: usize,
    xrestr_off: usize,
    pool_off: usize,
}

impl Layout {
    spec fn of(self, b: Seq<u8>) -> bool {
        let h = header_of(b);
        &&& self.segs == h.segs
        &&& self.nodes == h.nodes
        &&& self.restrs == h.restrs
        &&& self.verts == h.verts
        &&& self.xrestrs == h.xrestrs
        &&& self.pool == h.pool
        &&& self.geom_off == h.geom_off()
        &&& self.node_off == h.node_off()
        &&& self.restr_off == h.restr_off()
        &&& self.xrestr_off == h.xrestr_off()
        &&& self.pool_off == h.pool_off()
        &&& h.min_len() <= b.len() <= usize::MAX
        &&& 40 <= b.len()
    }
}

/// Whether there are at least `n` bytes.
pub fn require(b: &[u8], n: usize) -> (r: Result<(), TileReadError>)
    ensures
        r == if b@.len() < n {
            Err::<(), TileReadError>(
                TileReadError::TooShort { need: n, have: b@.len() as usize },
            )
        } else {
            Ok(())
        },
{
    if b.len() < n {
        Err(TileReadError::TooShort { need: n, have: b.len() })
    } else {
        Ok(())
    }
}

/// `base + count * size`, if it fits.
fn section_end(base: Option<usize>, count: usize, size: usize) -> (r: Option<usize>)
    ensures
        (match r {
            Some(v) => base is Some && v == base->Some_0 + count * size,
            None => base is Some ==> base->Some_0 + count * size > usize::MAX,
        }),
{
    match base {
        Some(v) => match count.checked_mul(size) {
            Some(n) => v.checked_add(n),
            None => None,
        },
        None => None,
    }
}

fn read_layout(b: &[u8]) -> (r: Result<Layout, TileReadError>)
    ensures
        (match r {
            Ok(l) => header_verdict(b@, None) && l.of(b@),
            Err(e) => header_verdict(b@, Some(e)),
        }),
{
    let have: usize = b.len();
    match require(b, 40) {
        Err(e) => {
            return Err(e);
        },
        Ok(_) => {},
    }
    let first: [u8; 4] = [b[0], b[1], b[2], b[3]];
    assert(first@ =~= b@.take(4));
    if !(b[0] == 0x4f && b[1] == 0x4c && b[2] == 0x52 && b[3] == 0x4c) {
        assert(first@ != magic()) by {
            if first@ == magic() {
                assert(first@[0] == magic()[0] && first@[1] == magic()[1] && first@[2]
                    == magic()[2] && first@[3] == magic()[3]);
            }
        }
        return Err(TileReadError::BadMagic(first));
    }
    assert(first@ =~= magic());
    if b[4] != 3 {
        return Err(TileReadError::UnsupportedVersion(b[4]));
    }
    let segs: usize = u32_le(b, 8) as usize;
    let nodes: usize = u32_le(b, 12) as usize;
    let restrs: usize = u32_le(b, 16) as usize;
    let verts: usize = u32_le(b, 20) as usize;
    let xrestrs: usize = u32_le(b, 24) as usize;
    let pool: usize = u32_le(b, 28) as usize;
    let geom_off: Option<usize> = section_end(Some(40), segs, 32);
    let node_off: Option<usize> = section_end(geom_off, verts, 8);
    let restr_off: Option<usize> = section_end(node_off, nodes, 28);
    let xrestr_off: Option<usize> = section_end(restr_off, restrs, 16);
    let pool_off: Option<usize> = section_end(xrestr_off, xrestrs, 16);
    let min_len: Option<usize> = section_end(pool_off, pool, 1);
    match (geom_off, node_off, restr_off, xrestr_off, pool_off, min_len) {
        (
            Some(geom_off),
            Some(node_off),
            Some(restr_off),
            Some(xrestr_off),
            Some(pool_off),
            Some(min_len),
        ) => {
            match require(b, min_len) {
                Err(e) => Err(e),
                Ok(_) => Ok(
                    Layout {
                        segs,
                        nodes,
                        restrs,
                        verts,
                        xrestrs,
                        pool,
                        geom_off,
                        node_off,
                        restr_off,
                        xrestr_off,
                        pool_off,
                    },
                ),
            }
        },
        _ => Err(TileReadError::TooShort { need: usize::MAX, have }),
    }
}

/// The text of `len` pool bytes at pool offset `off`.
fn read_pool_text(b: &[u8], l: &Layout, off: usize, len: usize) -> (r: Result<
    String,
    TileReadError,
>)
    requires
        l.of(b@),
        off <= u32::MAX,
        len <= u8::MAX,
    ensures
        (match r {
            Ok(s) => pool_text(b@, header_of(b@), off as int, len as int) == Ok::<
                Seq<char>,
                TileReadError,
            >(s@),
            Err(e) => pool_text(b@, header_of(b@), off as int, len as int) == Err::<
                Seq<char>,
                TileReadError,
            >(e),
        }),
{
    if off as u64 + len as u64 > l.pool as u64 {
        return Err(TileReadError::PoolOutOfRange { offset: off, len, pool: l.pool });
    }
    let from: usize = l.pool_off + off;
    let piece: &[u8] = vstd::slice::slice_subrange(b, from, from + len);
    match decode_text(piece) {
        Some(s) => Ok(s),
        None => Err(TileReadError::InvalidUtf8),
    }
}

/// A node record.
struct NodeData {
    lon: i32,
    lat: i32,
    stable_id: String,
    is_boundary: bool,
}

impl View for NodeData {
    type V = NodeRec;

    closed spec fn view(&self) -> NodeRec {
        NodeRec {
            lon: self.lon,
            lat: self.lat,
            stable_id: self.stable_id@,
            is_boundary: self.is_boundary,
        }
    }
}

fn read_node(b: &[u8], l: &Layout, i: usize) -> (r: Result<NodeData, TileReadError>)
    requires
        l.of(b@),
        i < l.nodes,
    ensures
        (match r {
            Ok(d) => node_rec(b@, header_of(b@), i as int) == Ok::<NodeRec, TileReadError>(d@),
            Err(e) => node_rec(b@, header_of(b@), i as int) == Err::<NodeRec, TileReadError>(e),
        }),
{
    assert(28 * i + 28 <= 28 * l.nodes) by (nonlinear_arith)
        requires
            i < l.nodes,
    ;
    let o: usize = l.node_off + 28 * i;
    let lon: i32 = i32_le(b, o);
    let lat: i32 = i32_le(b, o + 4);
    let is_boundary: bool = b[o + 24] % 2 == 1;
    match read_pool_text(b, l, u32_le(b, o + 8) as usize, b[o + 12] as usize) {
        Ok(stable_id) => Ok(NodeData { lon, lat, stable_id, is_boundary }),
        Err(e) => Err(e),
    }
}

/// A segment record.
struct SegData {
    start: usize,
    end: usize,
    geometry: Vec<(i32, i32)>,
    length_cm: u32,
    frc: u8,
    fow: u8,
    direction: Direction,
    stable_id: String,
}

impl View for SegData {
    type V = SegRec;

    closed spec fn view(&self) -> SegRec {
        SegRec {
            start: self.start as int,
            end: self.end as int,
            geometry: self.geometry@,
            length_cm: self.length_cm,
            frc: self.frc,
            fow: self.fow,
            direction: self.direction,
            stable_id: self.stable_id@,
        }
    }
}

/// Vertices `first` to `first + len` of the geometry pool.
fn read_geometry(b: &[u8], l: &Layout, first: usize, len: usize) -> (r: Vec<(i32, i32)>)
    requires
        l.of(b@),
        first + len <= l.verts,
    ensures
        r@ == Seq::new(len as nat, |k: int| vertex_at(b@, header_of(b@), first + k)),
{
    let mut out: Vec<(i32, i32)> = Vec::new();
    let mut k: usize = 0;
    while k < len
        invariant
            l.of(b@),
            first + len <= l.verts,
            k <= len,
            out@ == Seq::new(k as nat, |j: int| vertex_at(b@, header_of(b@), first + j)),
        decreases len - k,
    {
        assert(8 * (first + k) + 8 <= 8 * l.verts) by (nonlinear_arith)
            requires
                first + k < l.verts,
        ;
        let o: usize = l.geom_off + 8 * (first + k);
        let lon: i32 = i32_le(b, o);
        let lat: i32 = i32_le(b, o + 4);
        out.push((lon, lat));
        k += 1;
    }
    out
}

fn read_seg(b: &[u8], l: &Layout, i: usize) -> (r: Result<SegData, TileReadError>)
    requires
        l.of(b@),
        i < l.segs,
    ensures
        (match r {
            Ok(d) => seg_rec(b@, header_of(b@), i as int) == Ok::<SegRec, TileReadError>(d@)
                && d@.start < l.nodes && d@.end < l.nodes,
            Err(e) => seg_rec(b@, header_of(b@), i as int) == Err::<SegRec, TileReadError>(e),
        }),
{
    assert(32 * i + 32 <= 32 * l.segs) by (nonlinear_arith)
        requires
            i < l.segs,
    ;
    let o: usize = 40 + 32 * i;
    let start: usize = u32_le(b, o) as usize;
    let end: usize = u32_le(b, o + 4) as usize;
    let first: usize = u32_le(b, o + 8) as usize;
    let len: usize = u16_le(b, o + 12) as usize;
    let length_cm: u32 = u32_le(b, o + 14);
    let attrs: u8 = b[o + 18];
    if start >= l.nodes {
        return Err(TileReadError::NodeIndexOob(start));
    }
    if end >= l.nodes {
        return Err(TileReadError::NodeIndexOob(end));
    }
    if first as u64 + len as u64 > l.verts as u64 {
        return Err(TileReadError::GeomOutOfRange { offset: first, len, pool: l.verts });
    }
    if len < 2 {
        return Err(TileReadError::GeomTooShort { index: i, len });
    }
    let direction: Direction = match attrs / 64 {
        1 => Direction::Forward,
        2 => Direction::Backward,
        _ => Direction::Both,
    };
    let geometry: Vec<(i32, i32)> = read_geometry(b, l, first, len);
    match read_pool_text(b, l, u32_le(b, o + 20) as usize, b[o + 24] as usize) {
        Ok(stable_id) => {
            let d = SegData {
                start,
                end,
                geometry,
                length_cm,
                frc: attrs % 8,
                fow: attrs / 8 % 8,
                direction,
                stable_id,
            };
            Ok(d)
        },
        Err(e) => Err(e),
    }
}

/// A restriction record.
struct RestrData {
    from: usize,
    via: usize,
    to: usize,
}

impl View for RestrData {
    type V = RestrRec;

    closed spec fn view(&self) -> RestrRec {
        RestrRec { from: self.from as int, via: self.via as int, to: self.to as int }
    }
}

fn read_restr(b: &[u8], l: &Layout, i: usize) -> (r: Result<RestrData, TileReadError>)
    requires
        l.of(b@),
        i < l.restrs,
    ensures
        (match r {
            Ok(d) => restr_rec(b@, header_of(b@), i as int) == Ok::<RestrRec, TileReadError>(d@)
                && d@.from < l.segs && d@.to < l.segs && d@.via < l.nodes,
            Err(e) => restr_rec(b@, header_of(b@), i as int) == Err::<RestrRec, TileReadError>(e),
        }),
{
    assert(16 * i + 16 <= 16 * l.restrs) by (nonlinear_arith)
        requires
            i < l.restrs,
    ;
    let o: usize = l.restr_off + 16 * i;
    let from: usize = u32_le(b, o) as usize;
    let via: usize = u32_le(b, o + 4) as usize;
    let to: usize = u32_le(b, o + 8) as usize;
    if from >= l.segs {
        return Err(TileReadError::SegIndexOob(from));
    }
    if to >= l.segs {
        return Err(TileReadError::SegIndexOob(to));
    }
    if via >= l.nodes {
        return Err(TileReadError::NodeIndexOob(via));
    }
    Ok(RestrData { from, via, to })
}

/// A cross restriction record.
struct XRestrData {
    from_id: String,
    via: usize,
    to_id: String,
}

impl View for XRestrData {
    type V = XRestrRec;

    closed spec fn view(&self) -> XRestrRec {
        XRestrRec { from_id: self.from_id@, via: self.via as int, to_id: self.to_id@ }
    }
}

fn read_xrestr(b: &[u8], l: &Layout, i: usize) -> (r: Result<XRestrData, TileReadError>)
    requires
        l.of(b@),
        i < l.xrestrs,
    ensures
        (match r {
            Ok(d) => xrestr_rec(b@, header_of(b@), i as int) == Ok::<XRestrRec, TileReadError>(
                d@,
            ) && d@.via < l.nodes,
            Err(e) => xrestr_rec(b@, header_of(b@), i as int) == Err::<XRestrRec, TileReadError>(
                e,
            ),
        }),
{
    assert(16 * i + 16 <= 16 * l.xrestrs) by (nonlinear_arith)
        requires
            i < l.xrestrs,
    ;
    let o: usize = l.xrestr_off + 16 * i;
    let via: usize = u32_le(b, o + 5) as usize;
    if via >= l.nodes {
        return Err(TileReadError::NodeIndexOob(via));
    }
    let from_id: String = match read_pool_text(
        b,
        l,
        u32_le(b, o) as usize,
        b[o + 4] as usize,
    ) {
        Ok(s) => s,
        Err(e) => {
            return Err(e);
        },
    };
    let to_id: String = match read_pool_text(
        b,
        l,
        u32_le(b, o + 9) as usize,
        b[o + 13] as usize,
    ) {
        Ok(s) => s,
        Err(e) => {
            return Err(e);
        },
    };
    Ok(XRestrData { from_id, via, to_id })
}

/// A cross-tile turn restriction that cannot be resolved yet because a segment
/// of it may lie in a tile that is not loaded. Its node is always known.
#[derive(Debug)]
struct PendingXRestr {
    from_id: String,
    via_node: NodeId,
    to_id: String,
}

impl View for PendingXRestr {
    type V = PendingModel;

    closed spec fn view(&self) -> PendingModel {
        PendingModel { from_id: self.from_id@, via_node: self.via_node, to_id: self.to_id@ }
    }
}

/// A place in a tile: zoom, x, y, and the local index of a node or segment.
pub type TilePlace = (u8, u32, u32, u32);

/// One number for a place in a tile: different places have different numbers.
spec fn place_number(p: TilePlace) -> u128 {
    (p.0 as int * 0x1_0000_0000_0000_0000_0000_0000 + p.1 as int * 0x1_0000_0000_0000_0000 + p.2
        as int * 0x1_0000_0000 + p.3 as int) as u128
}

fn number_of_place(z: u8, x: u32, y: u32, i: u32) -> (n: u128)
    ensures
        n == place_number((z, x, y, i)),
{
    z as u128 * 0x1_0000_0000_0000_0000_0000_0000 + x as u128 * 0x1_0000_0000_0000_0000
        + y as u128 * 0x1_0000_0000 + i as u128
}

proof fn lemma_place_number_injective(a: TilePlace, b: TilePlace)
    requires
        place_number(a) == place_number(b),
    ensures
        a == b,
{
    assert(a.0 == b.0 && a.1 == b.1 && a.2 == b.2 && a.3 == b.3);
}

/// What a `TileLoader` holds.
#[verifier::ext_equal]
pub struct LoaderModel {
    pub load: LoadModel,
    /// The last tile place that each segment was loaded from.
    pub seg_tile: Map<u32, TilePlace>,
    /// The node at each tile place.
    pub node_tile: Map<TilePlace, NodeId>,
}

/// Accumulates tiles into an in-memory `Graph`, stitching boundary nodes, shared
/// segments and cross-tile turn restrictions across tiles.
pub struct TileLoader {
    pub graph: Graph,
    /// The node that each stable id was given (all nodes, not just boundary ones).
    boundary_nodes: StringHashMap<NodeId>,
    /// The segment that each stable id was given. A segment that straddles a tile
    /// boundary is in every tile it touches; without this it would enter the
    /// network once per tile, as twins that no search can tell apart.
    boundary_segs: StringHashMap<SegmentId>,
    next_node_id: u32,
    next_seg_id: u32,
    seg_tile: HashMap<u32, TilePlace>,
    node_tile: HashMap<u128, NodeId>,
    /// Cross-tile restrictions that wait for their segments.
    pending_xrestr: Vec<PendingXRestr>,
}

impl View for TileLoader {
    type V = LoaderModel;

    closed spec fn view(&self) -> LoaderModel {
        LoaderModel {
            load: LoadModel {
                graph: self.graph@,
                node_ids: self.boundary_nodes@,
                seg_ids: self.boundary_segs@,
                next_node: self.next_node_id as int,
                next_seg: self.next_seg_id as int,
                pending: self.pending_xrestr@.map_values(|p: PendingXRestr| p@),
            },
            seg_tile: self.seg_tile@,
            node_tile: Map::new(
                |p: TilePlace| self.node_tile@.contains_key(place_number(p)),
                |p: TilePlace| self.node_tile@[place_number(p)],
            ),
        }
    }
}

/// The views of a tile's tables.
pub open spec fn tables_of(r: Result<(Vec<NodeId>, Vec<SegmentId>), TileReadError>) -> Result<
    (Seq<NodeId>, Seq<SegmentId>),
    TileReadError,
> {
    match r {
        Ok((n, s)) => Ok((n@, s@)),
        Err(e) => Err(e),
    }
}

impl TileLoader {
    /// Whether the ids still to be given out suffice for a payload of `len` bytes.
    pub open spec fn has_room(self, len: nat) -> bool {
        self@.load.has_room(len)
    }

    /// A loader that has loaded nothing.
    pub fn new() -> (l: TileLoader)
        ensures
            l@.load == LoadModel::empty(),
            l@.seg_tile == Map::<u32, TilePlace>::empty(),
            l@.node_tile == Map::<TilePlace, NodeId>::empty(),
            l@.load.consistent(),
    {
        broadcast use vstd::std_specs::hash::group_hash_axioms;

        let l = TileLoader {
            graph: Graph::new(),
            boundary_nodes: StringHashMap::new(),
            boundary_segs: StringHashMap::new(),
            next_node_id: 0,
            next_seg_id: 0,
            seg_tile: HashMap::new(),
            node_tile: HashMap::new(),
            pending_xrestr: Vec::new(),
        };
        assert(l@.load.pending =~= Seq::empty());
        assert(l@.node_tile =~= Map::<TilePlace, NodeId>::empty());
        l
    }

    /// The network loaded so far.
    pub fn network(&self) -> (g: &Graph)
        ensures
            g@ == self@.load.graph,
    {
        &self.graph
    }

    /// Whether the ids still to be given out suffice for a payload of `len` bytes.
    pub fn room_for(&self, len: usize) -> (r: bool)
        ensures
            r == self.has_room(len as nat),
    {
        self.next_node_id as u128 + len as u128 / 28 <= 0xffff_ffff && self.next_seg_id as u128
            + len as u128 / 32 <= 0xffff_ffff
    }

    /// Take in one node record.
    fn merge_node(&mut self, d: NodeData) -> (id: NodeId)
        requires
            old(self)@.load.next_node < u32::MAX,
        ensures
            id == old(self)@.load.node_for(d@.stable_id),
            final(self)@ == (LoaderModel {
                load: taking_node(old(self)@.load, d@),
                ..old(self)@
            }),
    {
        let ghost old_model = self@;
        let found: Option<NodeId> = match self.boundary_nodes.get(d.stable_id.as_str()) {
            Some(id) => Some(*id),
            None => None,
        };
        let id: NodeId = match found {
            Some(id) => id,
            None => {
                let id: NodeId = NodeId(self.next_node_id);
                self.next_node_id += 1;
                self.boundary_nodes.insert(d.stable_id.clone(), id);
                id
            },
        };
        let there: bool = self.graph.node(id).is_some();
        if !there {
            self.graph.add_node(
                NetworkNode {
                    id,
                    lon: d.lon,
                    lat: d.lat,
                    stable_id: d.stable_id,
                    is_boundary: d.is_boundary,
                },
            );
        }
        assert(self@ =~= (LoaderModel {
            load: taking_node(old_model.load, d@),
            ..old_model
        }));
        id
    }

    /// Take in one segment record.
    fn merge_seg(&mut self, d: SegData, start: NodeId, end: NodeId) -> (id: SegmentId)
        requires
            old(self)@.load.next_seg < u32::MAX,
        ensures
            id == old(self)@.load.seg_for(d@.stable_id),
            final(self)@ == (LoaderModel {
                load: taking_seg(old(self)@.load, d@, start, end),
                ..old(self)@
            }),
    {
        let ghost old_model = self@;
        let found: Option<SegmentId> = match self.boundary_segs.get(d.stable_id.as_str()) {
            Some(id) => Some(*id),
            None => None,
        };
        let id: SegmentId = match found {
            Some(id) => id,
            None => {
                let id: SegmentId = SegmentId(self.next_seg_id);
                self.next_seg_id += 1;
                self.boundary_segs.insert(d.stable_id.clone(), id);
                id
            },
        };
        let there: bool = self.graph.segment(id).is_some();
        if !there {
            let source_id: [u8; 16] = [0u8; 16];
            assert(source_id@ =~= Seq::new(16, |k: int| 0u8));
            self.graph.add_segment(
                NetworkSegment {
                    id,
                    start_node: start,
                    end_node: end,
                    geometry: d.geometry,
                    length_cm: d.length_cm,
                    frc: d.frc,
                    fow: d.fow,
                    direction: d.direction,
                    stable_id: d.stable_id,
                    source_id,
                },
            );
        }
        assert(self@ =~= (LoaderModel {
            load: taking_seg(old_model.load, d@, start, end),
            ..old_model
        }));
        id
    }
}

/// Whether segment `id` is there and starts or ends at `n`.
fn touches(g: &Graph, id: SegmentId, n: NodeId) -> (r: bool)
    ensures
        r == g@.touches(id, n),
{
    match g.segment(id) {
        Some(s) => s.start_node == n || s.end_node == n,
        None => false,
    }
}

/// The loaded segments of each stable id, oldest first.
fn index_by_stable_id(g: &Graph) -> (by: StringHashMap<Vec<SegmentId>>)
    ensures
        forall|t: Seq<char>| #[trigger]
            by@.contains_key(t) <==> segments_with(g@, t).len() > 0,
        forall|t: Seq<char>| #[trigger] by@.contains_key(t) ==> by@[t]@ == segments_with(g@, t),
{
    let ids: &Vec<SegmentId> = g.segment_ids();
    let mut by: StringHashMap<Vec<SegmentId>> = StringHashMap::new();
    let mut i: usize = 0;
    while i < ids.len()
        invariant
            i <= ids.len(),
            ids@ == g@.order,
            forall|t: Seq<char>| #[trigger]
                by@.contains_key(t) <==> carrying(g@, ids@.take(i as int), t).len() > 0,
            forall|t: Seq<char>| #[trigger]
                by@.contains_key(t) ==> by@[t]@ == carrying(g@, ids@.take(i as int), t),
        decreases ids.len() - i,
    {
        let id: SegmentId = ids[i];
        let ghost before = by@;
        assert(ids@.take(i + 1).drop_last() =~= ids@.take(i as int));
        match g.segment(id) {
            Some(s) => {
                let mut list: Vec<SegmentId> = match by.get(s.stable_id.as_str()) {
                    Some(v) => v.clone(),
                    None => Vec::new(),
                };
                proof {
                    let t = s.stable_id@;
                    if !before.contains_key(t) {
                        assert(carrying(g@, ids@.take(i as int), t) =~= Seq::empty());
                    }
                    assert(list@ =~= carrying(g@, ids@.take(i as int), t));
                }
                list.push(id);
                by.insert(s.stable_id.clone(), list);
            },
            None => {},
        }
        i += 1;
    }
    assert(ids@.take(i as int) =~= ids@);
    by
}

/// Read one payload into `loader`, without stitching cross-tile restrictions:
/// `TileLoader::load_tile` does both.
///
/// The records before the first unreadable one have taken effect even where the
/// payload as a whole is refused. On success the result holds the tile's own tables
/// from local index to node and segment.
pub fn parse_tile(b: &[u8], loader: &mut TileLoader) -> (r: Result<
    (Vec<NodeId>, Vec<SegmentId>),
    TileReadError,
>)
    requires
        old(loader).has_room(b@.len()),
    ensures
        final(loader)@ == (LoaderModel {
            load: parsed_load(old(loader)@.load, b@),
            ..old(loader)@
        }),
        parse_result(old(loader)@.load, b@, tables_of(r)),
        r is Ok <==> readable(old(loader)@.load, b@),
        old(loader)@.load.consistent() ==> final(loader)@.load.consistent(),
        old(loader)@.load.consistent() ==> (r matches Ok(tables) ==> tables_kept(
            old(loader)@.load,
            b@,
            final(loader)@.load,
            tables.0@,
            tables.1@,
        )),
{
    proof {
        if loader@.load.consistent() {
            law_loading_keeps_consistent(loader@.load, b@);
            if readable(loader@.load, b@) {
                law_reading_keeps_the_tables(loader@.load, b@);
            }
        }
    }
    read_tile(b, loader)
}

/// Read the records of one payload into `loader`, one after another.
#[verifier::rlimit(40)]
fn read_tile(b: &[u8], loader: &mut TileLoader) -> (r: Result<
    (Vec<NodeId>, Vec<SegmentId>),
    TileReadError,
>)
    requires
        old(loader).has_room(b@.len()),
    ensures
        final(loader)@ == (LoaderModel {
            load: parsed_load(old(loader)@.load, b@),
            ..old(loader)@
        }),
        parse_result(old(loader)@.load, b@, tables_of(r)),
{
    let ghost start = loader@;
    let ghost h = header_of(b@);
    let l: Layout = match read_layout(b) {
        Ok(l) => l,
        Err(e) => {
            return Err(e);
        },
    };
    assert(header_verdict(b@, None));
    assert(h.nodes <= b@.len() / 28 && h.segs <= b@.len() / 32);
    let mut local_nodes: Vec<NodeId> = Vec::new();
    let mut i: usize = 0;
    while i < l.nodes
        invariant
            l.of(b@),
            h == header_of(b@),
            header_verdict(b@, None),
            i <= l.nodes,
            start == old(loader)@,
            start.load.next_node + h.nodes <= u32::MAX,
            loader@.load.next_node <= start.load.next_node + i,
            loader@.load.next_seg == start.load.next_seg,
            loader@.seg_tile == start.seg_tile,
            loader@.node_tile == start.node_tile,
            local_nodes@.len() == i,
            after_nodes(start.load, b@, i as int) == (
                Progress { load: loader@.load, nodes: local_nodes@, segs: Seq::empty() },
                None::<TileReadError>,
            ),
        decreases l.nodes - i,
    {
        match read_node(b, &l, i) {
            Ok(d) => {
                let id: NodeId = loader.merge_node(d);
                local_nodes.push(id);
            },
            Err(e) => {
                proof {
                    lemma_nodes_stop(start.load, b@, i + 1);
                }
                return Err(e);
            },
        }
        i += 1;
    }
    let mut local_segs: Vec<SegmentId> = Vec::new();
    i = 0;
    while i < l.segs
        invariant
            l.of(b@),
            h == header_of(b@),
            header_verdict(b@, None),
            i <= l.segs,
            start == old(loader)@,
            start.load.next_seg + h.segs <= u32::MAX,
            loader@.load.next_seg <= start.load.next_seg + i,
            loader@.seg_tile == start.seg_tile,
            loader@.node_tile == start.node_tile,
            local_nodes@.len() == l.nodes,
            local_segs@.len() == i,
            after_segs(start.load, b@, i as int) == (
                Progress { load: loader@.load, nodes: local_nodes@, segs: local_segs@ },
                None::<TileReadError>,
            ),
        decreases l.segs - i,
    {
        match read_seg(b, &l, i) {
            Ok(d) => {
                let from: NodeId = local_nodes[d.start];
                let to: NodeId = local_nodes[d.end];
                let id: SegmentId = loader.merge_seg(d, from, to);
                local_segs.push(id);
            },
            Err(e) => {
                proof {
                    lemma_segs_stop(start.load, b@, i + 1);
                }
                return Err(e);
            },
        }
        i += 1;
    }
    i = 0;
    while i < l.restrs
        invariant
            l.of(b@),
            h == header_of(b@),
            header_verdict(b@, None),
            i <= l.restrs,
            start == old(loader)@,
            loader@.seg_tile == start.seg_tile,
            loader@.node_tile == start.node_tile,
            local_nodes@.len() == l.nodes,
            local_segs@.len() == l.segs,
            after_restrs(start.load, b@, i as int) == (
                Progress { load: loader@.load, nodes: local_nodes@, segs: local_segs@ },
                None::<TileReadError>,
            ),
        decreases l.restrs - i,
    {
        match read_restr(b, &l, i) {
            Ok(d) => {
                loader.graph.add_restriction(
                    TurnRestriction {
                        from_seg: local_segs[d.from],
                        via_node: local_nodes[d.via],
                        to_seg: local_segs[d.to],
                    },
                );
            },
            Err(e) => {
                proof {
                    lemma_restrs_stop(start.load, b@, i + 1);
                }
                return Err(e);
            },
        }
        i += 1;
    }
    i = 0;
    while i < l.xrestrs
        invariant
            l.of(b@),
            h == header_of(b@),
            header_verdict(b@, None),
            i <= l.xrestrs,
            start == old(loader)@,
            loader@.seg_tile == start.seg_tile,
            loader@.node_tile == start.node_tile,
            local_nodes@.len() == l.nodes,
            local_segs@.len() == l.segs,
            after_xrestrs(start.load, b@, i as int) == (
                Progress { load: loader@.load, nodes: local_nodes@, segs: local_segs@ },
                None::<TileReadError>,
            ),
        decreases l.xrestrs - i,
    {
        let ghost before = loader@.load;
        match read_xrestr(b, &l, i) {
            Ok(d) => {
                let ghost rec = d@;
                let via_node: NodeId = local_nodes[d.via];
                loader.pending_xrestr.push(
                    PendingXRestr { from_id: d.from_id, via_node, to_id: d.to_id },
                );
                assert(loader@.load.pending =~= before.pending.push(
                    PendingModel { from_id: rec.from_id, via_node, to_id: rec.to_id },
                ));
            },
            Err(e) => {
                proof {
                    lemma_xrestrs_stop(start.load, b@, i + 1);
                }
                return Err(e);
            },
        }
        i += 1;
    }
    Ok((local_nodes, local_segs))
}

impl TileLoader {
    /// Forbid every turn over `via` from a segment of `froms` into one of `tos`
    /// that touches `via`.
    fn forbid_between(&mut self, froms: &Vec<SegmentId>, via: NodeId, tos: &Vec<SegmentId>)
        ensures
            final(self)@ == (LoaderModel {
                load: LoadModel {
                    graph: with_turns(
                        old(self)@.load.graph,
                        turns_between(old(self)@.load.graph, froms@, via, tos@),
                    ),
                    ..old(self)@.load
                },
                ..old(self)@
            }),
    {
        let ghost start = self@;
        let ghost g0 = self@.load.graph;
        let mut i: usize = 0;
        assert(self@.load.graph =~= with_turns(g0, Seq::empty()));
        while i < froms.len()
            invariant
                i <= froms.len(),
                start == old(self)@,
                g0 == start.load.graph,
                self@ == (LoaderModel {
                    load: LoadModel {
                        graph: with_turns(
                            g0,
                            turns_between(g0, froms@.take(i as int), via, tos@),
                        ),
                        ..start.load
                    },
                    ..start
                }),
            decreases froms.len() - i,
        {
            let from: SegmentId = froms[i];
            let ghost done = turns_between(g0, froms@.take(i as int), via, tos@);
            assert(froms@.take(i + 1).drop_last() =~= froms@.take(i as int));
            if touches(&self.graph, from, via) {
                let mut j: usize = 0;
                assert(tos@.take(0) =~= Seq::empty());
                assert(done + turns_into(g0, from, via, tos@.take(0)) =~= done);
                while j < tos.len()
                    invariant
                        j <= tos.len(),
                        start == old(self)@,
                        g0 == start.load.graph,
                        self@ == (LoaderModel {
                            load: LoadModel {
                                graph: with_turns(
                                    g0,
                                    done + turns_into(g0, from, via, tos@.take(j as int)),
                                ),
                                ..start.load
                            },
                            ..start
                        }),
                    decreases tos.len() - j,
                {
                    let to: SegmentId = tos[j];
                    let ghost before = self@.load.graph;
                    assert(tos@.take(j + 1).drop_last() =~= tos@.take(j as int));
                    if touches(&self.graph, to, via) {
                        self.graph.add_restriction(
                            TurnRestriction { from_seg: from, via_node: via, to_seg: to },
                        );
                    }
                    assert(self@.load.graph =~= with_turns(
                        g0,
                        done + turns_into(g0, from, via, tos@.take(j + 1)),
                    ));
                    j += 1;
                }
                assert(tos@.take(j as int) =~= tos@);
            }
            i += 1;
        }
        assert(froms@.take(i as int) =~= froms@);
    }

    /// Resolve pending cross-tile restrictions against the loaded segments. Runs
    /// by itself after each `load_tile`.
    pub fn stitch_cross_tile(&mut self)
        ensures
            final(self)@ == (LoaderModel { load: stitched(old(self)@.load), ..old(self)@ }),
            old(self)@.load.consistent() ==> final(self)@.load.consistent(),
    {
        let ghost start = self@;
        proof {
            if start.load.consistent() {
                law_stitching_keeps_consistent(start.load);
            }
        }
        let ghost g0 = self@.load.graph;
        if self.pending_xrestr.len() == 0 {
            assert(self@.load.pending =~= Seq::empty());
            assert(stitched(start.load) =~= start.load);
            return;
        }
        let by_stable: StringHashMap<Vec<SegmentId>> = index_by_stable_id(&self.graph);
        let mut pending: Vec<PendingXRestr> = Vec::new();
        std::mem::swap(&mut pending, &mut self.pending_xrestr);
        let ghost all = start.load.pending;
        assert(all =~= pending@.map_values(|p: PendingXRestr| p@));
        assert(self@.load.pending =~= Seq::empty());
        assert(self@.load.graph =~= with_turns(g0, Seq::empty()));
        let mut i: usize = 0;
        while i < pending.len()
            invariant
                i <= pending.len(),
                start == old(self)@,
                g0 == start.load.graph,
                all == start.load.pending,
                all == pending@.map_values(|p: PendingXRestr| p@),
                forall|t: Seq<char>| #[trigger]
                    by_stable@.contains_key(t) <==> segments_with(g0, t).len() > 0,
                forall|t: Seq<char>| #[trigger]
                    by_stable@.contains_key(t) ==> by_stable@[t]@ == segments_with(g0, t),
                self@ == (LoaderModel {
                    load: LoadModel {
                        graph: with_turns(g0, resolved_turns(g0, all.take(i as int))),
                        pending: unresolved(g0, all.take(i as int)),
                        ..start.load
                    },
                    ..start
                }),
            decreases pending.len() - i,
        {
            let p: &PendingXRestr = &pending[i];
            let ghost before = self@.load;
            assert(all[i as int] == p@);
            assert(all.take(i + 1).drop_last() =~= all.take(i as int));
            match (by_stable.get(p.from_id.as_str()), by_stable.get(p.to_id.as_str())) {
                (Some(froms), Some(tos)) => {
                    proof {
                        lemma_turns_ignore_restrictions(
                            g0,
                            before.graph,
                            froms@,
                            p.via_node,
                            tos@,
                        );
                    }
                    self.forbid_between(froms, p.via_node, tos);
                    assert(self@.load.graph =~= with_turns(
                        g0,
                        resolved_turns(g0, all.take(i + 1)),
                    ));
                },
                _ => {
                    self.pending_xrestr.push(
                        PendingXRestr {
                            from_id: p.from_id.clone(),
                            via_node: p.via_node,
                            to_id: p.to_id.clone(),
                        },
                    );
                    assert(self@.load.pending =~= before.pending.push(p@));
                },
            }
            i += 1;
        }
        assert(all.take(i as int) =~= all);
    }
}

/// Which turns a pending restriction forbids does not depend on the turns that are
/// forbidden already.
proof fn lemma_turns_ignore_restrictions(
    g: GraphModel,
    g2: GraphModel,
    froms: Seq<SegmentId>,
    via: NodeId,
    tos: Seq<SegmentId>,
)
    requires
        g.segments == g2.segments,
    ensures
        turns_between(g, froms, via, tos) == turns_between(g2, froms, via, tos),
    decreases froms.len(),
{
    if froms.len() > 0 {
        lemma_turns_ignore_restrictions(g, g2, froms.drop_last(), via, tos);
        lemma_into_ignores_restrictions(g, g2, froms.last(), via, tos);
    }
}

proof fn lemma_into_ignores_restrictions(
    g: GraphModel,
    g2: GraphModel,
    from: SegmentId,
    via: NodeId,
    tos: Seq<SegmentId>,
)
    requires
        g.segments == g2.segments,
    ensures
        turns_into(g, from, via, tos) == turns_into(g2, from, via, tos),
    decreases tos.len(),
{
    if tos.len() > 0 {
        lemma_into_ignores_restrictions(g, g2, from, via, tos.drop_last());
    }
}

/// `m` with local segments 0 to `n` of a tile recorded, a later one in place of an
/// earlier one of the same id.
pub open spec fn with_seg_places(
    m: Map<u32, TilePlace>,
    k: TileKey,
    segs: Seq<SegmentId>,
    n: int,
) -> Map<u32, TilePlace>
    decreases n,
{
    if n <= 0 {
        m
    } else {
        with_seg_places(m, k, segs, n - 1).insert(
            segs[n - 1].0,
            (k.z, k.x, k.y, (n - 1) as u32),
        )
    }
}

/// `m` with local nodes 0 to `n` of a tile recorded.
pub open spec fn with_node_places(
    m: Map<TilePlace, NodeId>,
    k: TileKey,
    nodes: Seq<NodeId>,
    n: int,
) -> Map<TilePlace, NodeId>
    decreases n,
{
    if n <= 0 {
        m
    } else {
        with_node_places(m, k, nodes, n - 1).insert(
            (k.z, k.x, k.y, (n - 1) as u32),
            nodes[n - 1],
        )
    }
}

/// What loading a payload as tile `k` leaves behind. No bytes at all mean that the
/// archive does not hold the tile: it counts as loaded. A payload that cannot be
/// read leaves the tile unrecorded.
pub open spec fn loaded_at(m: LoaderModel, k: TileKey, b: Seq<u8>) -> LoaderModel {
    if b.len() == 0 {
        LoaderModel { load: LoadModel { graph: m.load.graph.with_loaded(k), ..m.load }, ..m }
    } else {
        let after = loaded(m.load, b);
        let p = merged(m.load, b).0;
        if !readable(m.load, b) {
            LoaderModel { load: after, ..m }
        } else {
            LoaderModel {
                load: LoadModel { graph: after.graph.with_loaded(k), ..after },
                seg_tile: with_seg_places(m.seg_tile, k, p.segs, p.segs.len() as int),
                node_tile: with_node_places(m.node_tile, k, p.nodes, p.nodes.len() as int),
            }
        }
    }
}

impl TileLoader {
    /// Read one payload and merge it into the network. Cross-tile restrictions are
    /// stitched against the segments loaded so far; those that name others wait.
    ///
    /// On success the result holds the tile's own tables from local index to node
    /// and segment.
    pub fn load_tile(&mut self, bytes: &[u8]) -> (r: Result<
        (Vec<NodeId>, Vec<SegmentId>),
        TileReadError,
    >)
        requires
            old(self).has_room(bytes@.len()),
        ensures
            parse_result(old(self)@.load, bytes@, tables_of(r)),
            r is Ok <==> readable(old(self)@.load, bytes@),
            final(self)@ == (LoaderModel { load: loaded(old(self)@.load, bytes@), ..old(self)@ }),
            old(self)@.load.consistent() ==> final(self)@.load.consistent(),
            old(self)@.load.consistent() ==> (r matches Ok(tables) ==> tables_kept(
                old(self)@.load,
                bytes@,
                final(self)@.load,
                tables.0@,
                tables.1@,
            )),
    {
        proof {
            if self@.load.consistent() {
                law_loading_keeps_consistent(self@.load, bytes@);
                if readable(self@.load, bytes@) {
                    law_reading_keeps_the_tables(self@.load, bytes@);
                }
            }
        }
        let r = parse_tile(bytes, self);
        match r {
            Ok(tables) => {
                self.stitch_cross_tile();
                Ok(tables)
            },
            Err(e) => Err(e),
        }
    }

    /// Like `load_tile`, but also records where in tile `z`/`x`/`y` each node and
    /// segment came from, and that the tile is loaded.
    ///
    /// No bytes at all mean that the archive does not hold the tile. It is recorded
    /// as loaded all the same, so that nobody keeps asking for it.
    pub fn load_tile_at(&mut self, z: u8, x: u32, y: u32, bytes: &[u8]) -> (r: Result<
        (),
        TileReadError,
    >)
        requires
            old(self).has_room(bytes@.len()),
        ensures
            final(self)@ == loaded_at(old(self)@, TileKey { z, x, y }, bytes@),
            r is Ok <==> bytes@.len() == 0 || readable(old(self)@.load, bytes@),
            r matches Err(e) ==> parse_result(old(self)@.load, bytes@, Err(e)),
            old(self)@.load.consistent() ==> final(self)@.load.consistent(),
    {
        broadcast use vstd::std_specs::hash::group_hash_axioms;

        let ghost start = self@;
        let ghost key = TileKey { z, x, y };
        proof {
            if start.load.consistent() {
                law_recording_keeps_consistent(start.load, key);
                law_loading_keeps_consistent(start.load, bytes@);
                law_recording_keeps_consistent(loaded(start.load, bytes@), key);
            }
        }
        if bytes.len() == 0 {
            self.graph.mark_tile_loaded(z, x, y);
            assert(self@ =~= loaded_at(start, key, bytes@));
            return Ok(());
        }
        let (nodes, segs) = match self.load_tile(bytes) {
            Ok(tables) => tables,
            Err(e) => {
                return Err(e);
            },
        };
        let ghost after = self@;
        proof {
            lemma_table_lengths(start.load, bytes@);
        }
        let mut i: usize = 0;
        while i < segs.len()
            invariant
                i <= segs.len() <= 0x1_0000_0000,
                key == (TileKey { z, x, y }),
                after.seg_tile == start.seg_tile,
                self@ == (LoaderModel {
                    seg_tile: with_seg_places(start.seg_tile, key, segs@, i as int),
                    ..after
                }),
            decreases segs.len() - i,
        {
            self.seg_tile.insert(segs[i].0, (z, x, y, i as u32));
            assert(self@ =~= (LoaderModel {
                seg_tile: with_seg_places(start.seg_tile, key, segs@, i + 1),
                ..after
            }));
            i += 1;
        }
        let ghost middle = self@;
        i = 0;
        while i < nodes.len()
            invariant
                i <= nodes.len() <= 0x1_0000_0000,
                key == (TileKey { z, x, y }),
                middle.node_tile == start.node_tile,
                self@ == (LoaderModel {
                    node_tile: with_node_places(start.node_tile, key, nodes@, i as int),
                    ..middle
                }),
            decreases nodes.len() - i,
        {
            let ghost before = self@;
            let ghost place = (z, x, y, i as u32);
            self.node_tile.insert(number_of_place(z, x, y, i as u32), nodes[i]);
            proof {
                assert forall|p: TilePlace| place_number(p) == place_number(place) implies p
                    == place by {
                    lemma_place_number_injective(p, place);
                }
                assert(self@.node_tile =~= before.node_tile.insert(place, nodes@[i as int]));
            }
            assert(self@ =~= (LoaderModel {
                node_tile: with_node_places(start.node_tile, key, nodes@, i + 1),
                ..middle
            }));
            i += 1;
        }
        self.graph.mark_tile_loaded(z, x, y);
        assert(self@ =~= loaded_at(start, key, bytes@));
        Ok(())
    }

    /// The tile place that a segment was last loaded from.
    pub fn seg_tile(&self, id: SegmentId) -> (r: Option<TilePlace>)
        ensures
            r == if self@.seg_tile.contains_key(id.0) {
                Some(self@.seg_tile[id.0])
            } else {
                None
            },
    {
        broadcast use vstd::std_specs::hash::group_hash_axioms;

        match self.seg_tile.get(&id.0) {
            Some(p) => Some(*p),
            None => None,
        }
    }

    /// The node at local index `i` of tile `z`/`x`/`y`. A boundary node is found in
    /// each tile that holds it, under that tile's own index.
    pub fn node_tile(&self, z: u8, x: u32, y: u32, i: u32) -> (r: Option<NodeId>)
        ensures
            r == if self@.node_tile.contains_key((z, x, y, i)) {
                Some(self@.node_tile[(z, x, y, i)])
            } else {
                None
            },
    {
        broadcast use vstd::std_specs::hash::group_hash_axioms;

        match self.node_tile.get(&number_of_place(z, x, y, i)) {
            Some(n) => Some(*n),
            None => None,
        }
    }

    /// How many cross-tile restrictions wait for their segments.
    pub fn pending_count(&self) -> (n: usize)
        ensures
            n == self@.load.pending.len(),
    {
        self.pending_xrestr.len()
    }
}

impl Default for TileLoader {
    fn default() -> (l: TileLoader)
        ensures
            l@.load == LoadModel::empty(),
            l@.seg_tile == Map::<u32, TilePlace>::empty(),
            l@.node_tile == Map::<TilePlace, NodeId>::empty(),
            l@.load.consistent(),
    {
        TileLoader::new()
    }
}

} // verus!
