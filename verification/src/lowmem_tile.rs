//! From rows of edges, nodes and turn restrictions to tile payloads.
//!
//! Rows come in as they are stored: numbers are 64-bit and lose their higher bits
//! here, identifiers are sixteen bytes long.
use std::collections::{HashMap, HashSet};
use vstd::prelude::*;
use vstd::utf8::encode_utf8;

use crate::pair_map::PairMap;
use crate::tile_writer::{
    blob_to_geom, blob_vertices, build_lm_tile_payload, compute_tile_nodes_lm, cross_out, distinct,
    endpoints, id_key, id_number, low32, node_out, place_index, plan_of, seg_out, CrossOut,
    ElementId, LmCrossTile, LmEdge, LmIntraTile, NodeTables, TilePlan,
};

verus! {

/// Twice the signed area of a triangle: zero for three points on one line.
pub open spec fn cross_product(a: (i32, i32), b: (i32, i32), c: (i32, i32)) -> int {
    (b.0 - a.0) * (c.1 - a.1) - (b.1 - a.1) * (c.0 - a.0)
}

/// How far the way from `b` to `c` leads on in the direction from `a` to `b`: negative
/// where it leads back.
pub open spec fn onward(a: (i32, i32), b: (i32, i32), c: (i32, i32)) -> int {
    (b.0 - a.0) * (c.0 - b.0) + (b.1 - a.1) * (c.1 - b.1)
}

/// Whether `b` does not lie between `a` and `c`: the three are not on one line, or the
/// line turns back at `b`.
pub open spec fn bends(a: (i32, i32), b: (i32, i32), c: (i32, i32)) -> bool {
    cross_product(a, b, c) != 0 || onward(a, b, c) < 0
}

/// The vertices kept of `pts` before vertex `n`: the first one, and each that does not
/// lie between the vertex kept before it and the vertex after it.
pub open spec fn kept_before(pts: Seq<(i32, i32)>, n: int) -> Seq<(i32, i32)>
    decreases n,
{
    if n <= 1 {
        pts.take(1)
    } else {
        let kept = kept_before(pts, n - 1);
        if bends(kept.last(), pts[n - 1], pts[n]) {
            kept.push(pts[n - 1])
        } else {
            kept
        }
    }
}

/// `pts` without the inner vertices that lie between their neighbours.
pub open spec fn without_collinear(pts: Seq<(i32, i32)>) -> Seq<(i32, i32)> {
    if pts.len() <= 2 {
        pts
    } else {
        kept_before(pts, pts.len() - 1).push(pts.last())
    }
}

fn is_bend(a: (i32, i32), b: (i32, i32), c: (i32, i32)) -> (r: bool)
    ensures
        r == bends(a, b, c),
{
    let ux: i128 = b.0 as i128 - a.0 as i128;
    let uy: i128 = b.1 as i128 - a.1 as i128;
    let vx: i128 = c.0 as i128 - a.0 as i128;
    let vy: i128 = c.1 as i128 - a.1 as i128;
    let wx: i128 = c.0 as i128 - b.0 as i128;
    let wy: i128 = c.1 as i128 - b.1 as i128;
    proof {
        lemma_product_fits(ux as int, vy as int);
        lemma_product_fits(uy as int, vx as int);
        lemma_product_fits(ux as int, wx as int);
        lemma_product_fits(uy as int, wy as int);
    }
    ux * vy - uy * vx != 0 || ux * wx + uy * wy < 0
}

proof fn lemma_product_fits(x: int, y: int)
    requires
        -0x1_0000_0000 <= x <= 0x1_0000_0000,
        -0x1_0000_0000 <= y <= 0x1_0000_0000,
    ensures
        -0x1_0000_0000_0000_0000 <= x * y <= 0x1_0000_0000_0000_0000,
{
    assert(-0x1_0000_0000_0000_0000 <= x * y <= 0x1_0000_0000_0000_0000) by (nonlinear_arith)
        requires
            -0x1_0000_0000 <= x <= 0x1_0000_0000,
            -0x1_0000_0000 <= y <= 0x1_0000_0000,
    ;
}

/// Drop the inner vertices of a line that lie between their neighbours. The line stays
/// the same: a vertex where it turns back is kept.
pub fn remove_collinear_lm(pts: Vec<(i32, i32)>) -> (out: Vec<(i32, i32)>)
    ensures
        out@ == without_collinear(pts@),
{
    let n: usize = pts.len();
    if n <= 2 {
        return pts;
    }
    let mut out: Vec<(i32, i32)> = Vec::new();
    out.push(pts[0]);
    assert(out@ =~= pts@.take(1));
    let mut i: usize = 1;
    while i < n - 1
        invariant
            2 < n == pts@.len(),
            1 <= i <= n - 1,
            out@.len() > 0,
            out@ == kept_before(pts@, i as int),
        decreases n - i,
    {
        if is_bend(out[out.len() - 1], pts[i], pts[i + 1]) {
            out.push(pts[i]);
        }
        i += 1;
    }
    out.push(pts[n - 1]);
    out
}

proof fn lemma_kept_before(pts: Seq<(i32, i32)>, n: int)
    requires
        1 <= n < pts.len(),
    ensures
        1 <= kept_before(pts, n).len() <= n,
        kept_before(pts, n)[0] == pts[0],
        forall|v: (i32, i32)| #[trigger] kept_before(pts, n).contains(v) ==> pts.contains(v),
    decreases n,
{
    if n > 1 {
        lemma_kept_before(pts, n - 1);
        let k = kept_before(pts, n - 1);
        assert forall|v: (i32, i32)| #[trigger] kept_before(pts, n).contains(v) implies pts.contains(
            v,
        ) by {
            let j = choose|j: int| 0 <= j < kept_before(pts, n).len() && kept_before(pts, n)[j] == v;
            if j < k.len() {
                assert(k[j] == v);
                assert(k.contains(v));
            } else {
                assert(pts[n - 1] == v);
            }
        }
    } else {
        assert forall|v: (i32, i32)| #[trigger] kept_before(pts, n).contains(v) implies pts.contains(
            v,
        ) by {
            assert(pts[0] == v);
        }
    }
}

/// Dropping collinear vertices keeps both ends of the line, adds no vertex, and
/// leaves no longer a line than there was.
pub proof fn law_collinear_removal_keeps_the_ends(pts: Seq<(i32, i32)>)
    requires
        pts.len() >= 1,
    ensures
        without_collinear(pts).first() == pts.first(),
        without_collinear(pts).last() == pts.last(),
        without_collinear(pts).len() <= pts.len(),
        pts.len() >= 2 ==> without_collinear(pts).len() >= 2,
        forall|v: (i32, i32)| #[trigger] without_collinear(pts).contains(v) ==> pts.contains(v),
{
    if pts.len() > 2 {
        let n = pts.len() - 1;
        lemma_kept_before(pts, n);
        let k = kept_before(pts, n);
        assert forall|v: (i32, i32)| #[trigger] without_collinear(pts).contains(v) implies pts.contains(
            v,
        ) by {
            let w = without_collinear(pts);
            let j = choose|j: int| 0 <= j < w.len() && w[j] == v;
            if j < k.len() {
                assert(k[j] == v);
                assert(k.contains(v));
            } else {
                assert(pts[n] == v);
            }
        }
    }
}

/// The low 32 bits of a stored number.
fn low_u32(v: i64) -> (r: u32)
    ensures
        r == low32(v as int),
{
    if v >= 0 {
        (v as u64 % 0x1_0000_0000) as u32
    } else {
        ((v as i128 + 0x1_0000_0000_0000_0000) as u64 % 0x1_0000_0000) as u32
    }
}

/// The low eight bits of a number.
pub open spec fn low8(n: int) -> u8 {
    (n % 0x100) as u8
}

/// The low eight bits of a stored number.
pub fn low_u8(v: i64) -> (r: u8)
    ensures
        r == low8(v as int),
{
    (low_u32(v) % 0x100) as u8
}

/// The low 64 bits of a number.
pub open spec fn low64(n: int) -> u64 {
    (n % 0x1_0000_0000_0000_0000) as u64
}

fn low_u64(v: i64) -> (r: u64)
    ensures
        r == low64(v as int),
{
    if v >= 0 {
        v as u64
    } else {
        (v as i128 + 0x1_0000_0000_0000_0000) as u64
    }
}

/// A stored node.
#[derive(Debug)]
pub struct NodeRow {
    pub node_id: ElementId,
    pub lon_e7: i32,
    pub lat_e7: i32,
    pub tile_x: i64,
    pub tile_y: i64,
    pub stable_id: String,
}

impl NodeTables {
    /// Tables that know of no node.
    pub fn new() -> (t: NodeTables)
        ensures
            t.lookup@ == Map::<u128, (i32, i32)>::empty(),
            t.to_tile@ == Map::<u128, (u32, u32)>::empty(),
            t.stable_id@ == Map::<u128, String>::empty(),
    {
        NodeTables { lookup: HashMap::new(), to_tile: HashMap::new(), stable_id: HashMap::new() }
    }

    /// Take in a stored node, in place of any of the same identifier.
    pub fn add(&mut self, row: NodeRow)
        ensures
            final(self).lookup@ == old(self).lookup@.insert(
                id_number(row.node_id@),
                (row.lon_e7, row.lat_e7),
            ),
            final(self).to_tile@ == old(self).to_tile@.insert(
                id_number(row.node_id@),
                (low32(row.tile_x as int), low32(row.tile_y as int)),
            ),
            final(self).stable_id@ == old(self).stable_id@.insert(
                id_number(row.node_id@),
                row.stable_id,
            ),
    {
        broadcast use vstd::std_specs::hash::group_hash_axioms;

        let key: u128 = id_key(&row.node_id);
        self.lookup.insert(key, (row.lon_e7, row.lat_e7));
        self.to_tile.insert(key, (low_u32(row.tile_x), low_u32(row.tile_y)));
        self.stable_id.insert(key, row.stable_id);
    }
}

/// What the resolution of restrictions reads of a stored edge.
#[derive(Debug)]
pub struct EdgeMetaRow {
    pub edge_idx: i64,
    pub start_id: ElementId,
    pub end_id: ElementId,
    pub parent_id: ElementId,
    pub tile_id: i64,
    pub stable_id: String,
}

/// What an `EdgeIndex` holds.
#[verifier::ext_equal]
pub struct EdgeIndexModel {
    /// The edge of a parent that ends at a node.
    pub from_edge: Map<(u128, u128), u32>,
    /// The edge of a parent that starts at a node.
    pub to_edge: Map<(u128, u128), u32>,
    pub stable_id: Map<u32, Seq<char>>,
    pub tiles: Set<u64>,
}

impl EdgeIndexModel {
    /// The index with one more edge. An edge that is stored twice, once for each of
    /// two tiles, changes nothing the second time but for the tile.
    pub open spec fn with_edge(self, row: EdgeMetaRow) -> EdgeIndexModel {
        let idx = low32(row.edge_idx as int);
        EdgeIndexModel {
            from_edge: self.from_edge.insert(
                (id_number(row.parent_id@), id_number(row.end_id@)),
                idx,
            ),
            to_edge: self.to_edge.insert(
                (id_number(row.parent_id@), id_number(row.start_id@)),
                idx,
            ),
            stable_id: self.stable_id.insert(idx, row.stable_id@),
            tiles: self.tiles.insert(low64(row.tile_id as int)),
        }
    }
}

/// Finds the edges that a turn restriction speaks of.
#[derive(Debug)]
pub struct EdgeIndex {
    from_edge: PairMap,
    to_edge: PairMap,
    stable_id: HashMap<u32, String>,
    tiles: HashSet<u64>,
}

impl View for EdgeIndex {
    type V = EdgeIndexModel;

    closed spec fn view(&self) -> EdgeIndexModel {
        EdgeIndexModel {
            from_edge: self.from_edge@,
            to_edge: self.to_edge@,
            stable_id: self.stable_id@.map_values(|s: String| s@),
            tiles: self.tiles@,
        }
    }
}

/// The text under `k`, or no text.
pub open spec fn text_or_empty(m: Map<u32, Seq<char>>, k: u32) -> Seq<char> {
    if m.contains_key(k) {
        m[k]
    } else {
        Seq::empty()
    }
}

impl EdgeIndex {
    pub closed spec fn wf(self) -> bool {
        self.from_edge.wf() && self.to_edge.wf()
    }

    /// An index of no edges.
    pub fn new() -> (x: EdgeIndex)
        ensures
            x.wf(),
            x@ == (EdgeIndexModel {
                from_edge: Map::empty(),
                to_edge: Map::empty(),
                stable_id: Map::empty(),
                tiles: Set::empty(),
            }),
    {
        broadcast use vstd::std_specs::hash::group_hash_axioms;

        let x = EdgeIndex {
            from_edge: PairMap::new(),
            to_edge: PairMap::new(),
            stable_id: HashMap::new(),
            tiles: HashSet::new(),
        };
        assert(x@.stable_id =~= Map::<u32, Seq<char>>::empty());
        x
    }

    /// Take in a stored edge.
    pub fn add(&mut self, row: EdgeMetaRow)
        requires
            old(self).wf(),
        ensures
            final(self).wf(),
            final(self)@ == old(self)@.with_edge(row),
    {
        broadcast use vstd::std_specs::hash::group_hash_axioms;

        let idx: u32 = low_u32(row.edge_idx);
        let parent: u128 = id_key(&row.parent_id);
        self.tiles.insert(low_u64(row.tile_id));
        self.from_edge.insert(parent, id_key(&row.end_id), idx);
        self.to_edge.insert(parent, id_key(&row.start_id), idx);
        self.stable_id.insert(idx, row.stable_id);
        assert(self@ =~= old(self)@.with_edge(row));
    }

    /// How many tiles hold an edge.
    pub fn tile_count(&self) -> (n: usize)
        ensures
            n == self@.tiles.len(),
    {
        broadcast use vstd::std_specs::hash::group_hash_axioms;

        self.tiles.len()
    }

    fn text_of_edge(&self, idx: u32) -> (s: String)
        ensures
            s@ == text_or_empty(self@.stable_id, idx),
    {
        broadcast use vstd::std_specs::hash::group_hash_axioms;

        match self.stable_id.get(&idx) {
            Some(s) => s.clone(),
            None => String::new(),
        }
    }

    /// Find what a stored restriction speaks of, if all of it is known.
    pub fn resolve(&self, tables: &NodeTables, row: &RestrictionRow) -> (r: Option<
        ResolvedRestriction,
    >)
        ensures
            (match r {
                Some(x) => resolved_of(self@, tables.to_tile@, *row) == Some(x@),
                None => resolved_of(self@, tables.to_tile@, *row) is None,
            }),
    {
        broadcast use vstd::std_specs::hash::group_hash_axioms;

        let via: u128 = id_key(&row.via_id);
        let from_edge_idx: u32 = match self.from_edge.get(id_key(&row.from_id), via) {
            Some(i) => i,
            None => {
                return None;
            },
        };
        let to_edge_idx: u32 = match self.to_edge.get(id_key(&row.to_id), via) {
            Some(i) => i,
            None => {
                return None;
            },
        };
        let (via_tile_x, via_tile_y): (u32, u32) = match tables.to_tile.get(&via) {
            Some(t) => *t,
            None => {
                return None;
            },
        };
        Some(
            ResolvedRestriction {
                via_id: row.via_id,
                flags: low_u8(row.flags),
                from_edge_idx,
                to_edge_idx,
                from_stable_id: self.text_of_edge(from_edge_idx),
                to_stable_id: self.text_of_edge(to_edge_idx),
                via_tile_x,
                via_tile_y,
            },
        )
    }
}

/// A stored turn restriction: from a parent, over a node, into a parent.
#[derive(Debug)]
pub struct RestrictionRow {
    pub from_id: ElementId,
    pub via_id: ElementId,
    pub to_id: ElementId,
    pub flags: i64,
}

/// A turn restriction between two known edges, with the tile of its node.
#[derive(Debug)]
pub struct ResolvedRestriction {
    pub via_id: ElementId,
    pub flags: u8,
    pub from_edge_idx: u32,
    pub to_edge_idx: u32,
    pub from_stable_id: String,
    pub to_stable_id: String,
    pub via_tile_x: u32,
    pub via_tile_y: u32,
}

/// What a `ResolvedRestriction` holds.
#[verifier::ext_equal]
pub struct ResolvedModel {
    pub via_id: ElementId,
    pub flags: u8,
    pub from_edge_idx: u32,
    pub to_edge_idx: u32,
    pub from_stable_id: Seq<char>,
    pub to_stable_id: Seq<char>,
    pub via_tile: (u32, u32),
}

impl View for ResolvedRestriction {
    type V = ResolvedModel;

    open spec fn view(&self) -> ResolvedModel {
        ResolvedModel {
            via_id: self.via_id,
            flags: self.flags,
            from_edge_idx: self.from_edge_idx,
            to_edge_idx: self.to_edge_idx,
            from_stable_id: self.from_stable_id@,
            to_stable_id: self.to_stable_id@,
            via_tile: (self.via_tile_x, self.via_tile_y),
        }
    }
}

/// A restriction is resolved if an edge of its first parent ends at its node, an
/// edge of its second parent starts there, and the node's tile is known.
pub open spec fn resolved_of(
    x: EdgeIndexModel,
    to_tile: Map<u128, (u32, u32)>,
    row: RestrictionRow,
) -> Option<ResolvedModel> {
    let via = id_number(row.via_id@);
    let from_key = (id_number(row.from_id@), via);
    let to_key = (id_number(row.to_id@), via);
    if x.from_edge.contains_key(from_key) && x.to_edge.contains_key(to_key)
        && to_tile.contains_key(via) {
        Some(
            ResolvedModel {
                via_id: row.via_id,
                flags: low8(row.flags as int),
                from_edge_idx: x.from_edge[from_key],
                to_edge_idx: x.to_edge[to_key],
                from_stable_id: text_or_empty(x.stable_id, x.from_edge[from_key]),
                to_stable_id: text_or_empty(x.stable_id, x.to_edge[to_key]),
                via_tile: to_tile[via],
            },
        )
    } else {
        None
    }
}

/// Those of `rows` that can be resolved, resolved, in their order.
pub open spec fn all_resolved(
    x: EdgeIndexModel,
    to_tile: Map<u128, (u32, u32)>,
    rows: Seq<RestrictionRow>,
) -> Seq<ResolvedModel>
    decreases rows.len(),
{
    if rows.len() == 0 {
        Seq::empty()
    } else {
        let rest = all_resolved(x, to_tile, rows.drop_last());
        match resolved_of(x, to_tile, rows.last()) {
            Some(r) => rest.push(r),
            None => rest,
        }
    }
}

/// The models of some restrictions.
pub open spec fn models(v: Seq<ResolvedRestriction>) -> Seq<ResolvedModel> {
    Seq::new(v.len(), |i: int| v[i]@)
}

/// Resolve what can be resolved. Also returns how many restrictions were skipped
/// because an edge or the node is not known.
pub fn resolve_restrictions(
    index: &EdgeIndex,
    tables: &NodeTables,
    rows: &[RestrictionRow],
) -> (r: (Vec<ResolvedRestriction>, usize))
    ensures
        models(r.0@) == all_resolved(index@, tables.to_tile@, rows@),
        r.0@.len() + r.1 == rows@.len(),
{
    let mut out: Vec<ResolvedRestriction> = Vec::new();
    let mut skipped: usize = 0;
    let mut i: usize = 0;
    assert(models(out@) =~= Seq::empty());
    while i < rows.len()
        invariant
            i <= rows@.len(),
            models(out@) == all_resolved(index@, tables.to_tile@, rows@.take(i as int)),
            out@.len() + skipped == i,
        decreases rows@.len() - i,
    {
        let ghost before = out@;
        assert(rows@.take(i + 1).drop_last() =~= rows@.take(i as int));
        match index.resolve(tables, &rows[i]) {
            Some(r) => {
                out.push(r);
                assert(models(out@) =~= models(before).push(r@));
            },
            None => {
                skipped += 1;
            },
        }
        i += 1;
    }
    assert(rows@.take(i as int) =~= rows@);
    (out, skipped)
}

/// One number for a tile: different tiles have different numbers.
pub open spec fn xy_number(x: u32, y: u32) -> u64 {
    (x as int * 0x1_0000_0000 + y as int) as u64
}

fn xy_key(x: u32, y: u32) -> (k: u64)
    ensures
        k == xy_number(x, y),
{
    x as u64 * 0x1_0000_0000 + y as u64
}

/// The places in `v` of the restrictions whose node lies in tile `x`/`y`.
pub open spec fn places_at(v: Seq<ResolvedModel>, x: u32, y: u32) -> Seq<usize>
    decreases v.len(),
{
    if v.len() == 0 {
        Seq::empty()
    } else {
        let rest = places_at(v.drop_last(), x, y);
        if v.last().via_tile == (x, y) {
            rest.push((v.len() - 1) as usize)
        } else {
            rest
        }
    }
}

/// Whether `m` groups `v` by tile.
pub open spec fn grouped(m: Map<u64, Vec<usize>>, v: Seq<ResolvedModel>) -> bool {
    &&& forall|x: u32, y: u32| #[trigger]
        m.contains_key(xy_number(x, y)) ==> m[xy_number(x, y)]@ == places_at(v, x, y)
    &&& forall|x: u32, y: u32|
        !(#[trigger] m.contains_key(xy_number(x, y))) ==> places_at(v, x, y).len() == 0
}

/// Group restrictions by the tile of their node.
pub fn group_by_tile(v: &[ResolvedRestriction]) -> (m: HashMap<u64, Vec<usize>>)
    ensures
        grouped(m@, models(v@)),
{
    broadcast use vstd::std_specs::hash::group_hash_axioms;

    let mut m: HashMap<u64, Vec<usize>> = HashMap::new();
    let ghost all = models(v@);
    let n: usize = v.len();
    let mut i: usize = 0;
    while i < n
        invariant
            i <= n,
            n == v@.len(),
            all == models(v@),
            grouped(m@, all.take(i as int)),
        decreases n - i,
    {
        let ghost before = m@;
        let (x, y): (u32, u32) = (v[i].via_tile_x, v[i].via_tile_y);
        let key: u64 = xy_key(x, y);
        let mut list: Vec<usize> = match m.remove(&key) {
            Some(l) => l,
            None => Vec::new(),
        };
        assert(list@ =~= places_at(all.take(i as int), x, y));
        list.push(i);
        m.insert(key, list);
        proof {
            assert(all.take(i + 1).drop_last() =~= all.take(i as int));
            assert(all.take(i + 1).last() == v@[i as int]@);
            assert forall|a: u32, b: u32| xy_number(a, b) == key implies a == x && b == y by {}
            assert forall|a: u32, b: u32| #[trigger]
                m@.contains_key(xy_number(a, b)) implies m@[xy_number(a, b)]@ == places_at(
                all.take(i + 1),
                a,
                b,
            ) by {
                if xy_number(a, b) != key {
                    assert(before.contains_key(xy_number(a, b)));
                }
            }
            assert forall|a: u32, b: u32| !(#[trigger] m@.contains_key(xy_number(a, b))) implies
                places_at(all.take(i + 1), a, b).len() == 0 by {
                assert(!before.contains_key(xy_number(a, b)));
            }
        }
        i += 1;
    }
    assert(all.take(i as int) =~= all);
    m
}

/// The local index of the last edge numbered `idx`.
pub open spec fn local_of(edges: Seq<LmEdge>, idx: u32) -> Option<u32>
    decreases edges.len(),
{
    if edges.len() == 0 {
        None
    } else if edges.last().edge_idx == idx {
        Some(low32(edges.len() - 1))
    } else {
        local_of(edges.drop_last(), idx)
    }
}

/// Whether restriction `r` lies within a tile: its node is there, and so are both
/// of its edges.
pub open spec fn within(edges: Seq<LmEdge>, places: Map<u128, u32>, r: ResolvedModel) -> bool {
    &&& places.contains_key(id_number(r.via_id@))
    &&& local_of(edges, r.from_edge_idx) is Some
    &&& local_of(edges, r.to_edge_idx) is Some
}

/// Whether restriction `r` reaches into another tile: its node is there, and an
/// edge is not.
pub open spec fn across(edges: Seq<LmEdge>, places: Map<u128, u32>, r: ResolvedModel) -> bool {
    &&& places.contains_key(id_number(r.via_id@))
    &&& !within(edges, places, r)
}

/// The restrictions within a tile, in local indices.
pub open spec fn intra_of(
    edges: Seq<LmEdge>,
    places: Map<u128, u32>,
    rs: Seq<ResolvedModel>,
) -> Seq<LmIntraTile>
    decreases rs.len(),
{
    if rs.len() == 0 {
        Seq::empty()
    } else {
        let rest = intra_of(edges, places, rs.drop_last());
        let r = rs.last();
        if within(edges, places, r) {
            rest.push(
                LmIntraTile {
                    from_seg: local_of(edges, r.from_edge_idx)->Some_0,
                    via_node: places[id_number(r.via_id@)],
                    to_seg: local_of(edges, r.to_edge_idx)->Some_0,
                    flags: r.flags,
                },
            )
        } else {
            rest
        }
    }
}

/// The restrictions that reach into another tile, by stable id.
pub open spec fn cross_of(
    edges: Seq<LmEdge>,
    places: Map<u128, u32>,
    rs: Seq<ResolvedModel>,
) -> Seq<CrossOut>
    decreases rs.len(),
{
    if rs.len() == 0 {
        Seq::empty()
    } else {
        let rest = cross_of(edges, places, rs.drop_last());
        let r = rs.last();
        if across(edges, places, r) {
            rest.push(
                CrossOut {
                    from: encode_utf8(r.from_stable_id),
                    via: places[id_number(r.via_id@)],
                    to: encode_utf8(r.to_stable_id),
                    flags: r.flags,
                },
            )
        } else {
            rest
        }
    }
}

/// Those of `v` whose node lies in tile `x`/`y`, in their order.
pub open spec fn at_tile(v: Seq<ResolvedModel>, x: u32, y: u32) -> Seq<ResolvedModel> {
    Seq::new(places_at(v, x, y).len(), |i: int| v[places_at(v, x, y)[i] as int])
}

/// All that the payload of tile `x`/`y` holds, given its edges, what is known of
/// nodes, and every restriction.
pub open spec fn tile_plan(
    edges: Seq<LmEdge>,
    tables: NodeTables,
    x: u32,
    y: u32,
    resolved: Seq<ResolvedModel>,
) -> TilePlan {
    let order = distinct(endpoints(edges));
    let places = place_index(order);
    let here = at_tile(resolved, x, y);
    TilePlan {
        segs: Seq::new(edges.len(), |i: int| seg_out(edges[i], places)),
        nodes: Seq::new(order.len(), |i: int| node_out(order[i], tables, x, y)),
        intra: intra_of(edges, places, here),
        cross: cross_of(edges, places, here),
    }
}

/// The local index of each edge number.
fn index_edges(edges: &[LmEdge]) -> (m: HashMap<u32, u32>)
    ensures
        forall|idx: u32| #[trigger]
            m@.contains_key(idx) <==> local_of(edges@, idx) is Some,
        forall|idx: u32| #[trigger]
            m@.contains_key(idx) ==> local_of(edges@, idx) == Some(m@[idx]),
{
    broadcast use vstd::std_specs::hash::group_hash_axioms;

    let mut m: HashMap<u32, u32> = HashMap::new();
    let mut i: usize = 0;
    while i < edges.len()
        invariant
            i <= edges@.len(),
            forall|idx: u32| #[trigger]
                m@.contains_key(idx) <==> local_of(edges@.take(i as int), idx) is Some,
            forall|idx: u32| #[trigger]
                m@.contains_key(idx) ==> local_of(edges@.take(i as int), idx) == Some(m@[idx]),
        decreases edges@.len() - i,
    {
        assert(edges@.take(i + 1).drop_last() =~= edges@.take(i as int));
        m.insert(edges[i].edge_idx, (i as u64 % 0x1_0000_0000) as u32);
        i += 1;
    }
    assert(edges@.take(i as int) =~= edges@);
    m
}

proof fn lemma_places_at(v: Seq<ResolvedModel>, x: u32, y: u32)
    requires
        v.len() <= usize::MAX,
    ensures
        forall|i: int|
            0 <= i < places_at(v, x, y).len() ==> #[trigger] places_at(v, x, y)[i] < v.len(),
    decreases v.len(),
{
    if v.len() > 0 {
        let rest = places_at(v.drop_last(), x, y);
        lemma_places_at(v.drop_last(), x, y);
        assert forall|i: int|
            0 <= i < places_at(v, x, y).len() implies #[trigger] places_at(v, x, y)[i]
            < v.len() by {
            if i < rest.len() {
                assert(places_at(v, x, y)[i] == rest[i]);
            }
        }
    }
}

proof fn lemma_distinct_contains(s: Seq<ElementId>, k: int)
    requires
        0 <= k < s.len(),
    ensures
        distinct(s).contains(s[k]),
    decreases s.len(),
{
    let before = distinct(s.drop_last());
    if k < s.len() - 1 {
        lemma_distinct_contains(s.drop_last(), k);
        let j = choose|j: int| 0 <= j < before.len() && before[j] == s[k];
        assert(distinct(s)[j] == s[k]);
    } else if !before.contains(s.last()) {
        assert(distinct(s)[before.len() as int] == s[k]);
    }
}

/// The payload of tile `tile_x`/`tile_y`.
///
/// `resolved` holds every restriction and `by_tile` groups them. A restriction whose
/// node is not among the edges' nodes is left out.
#[verifier::rlimit(20)]
pub fn flush_tile(
    tile_x: u32,
    tile_y: u32,
    edges: &[LmEdge],
    tables: &NodeTables,
    resolved: &[ResolvedRestriction],
    by_tile: &HashMap<u64, Vec<usize>>,
) -> (payload: Vec<u8>)
    requires
        grouped(by_tile@, models(resolved@)),
    ensures
        payload@ == tile_plan(edges@, *tables, tile_x, tile_y, models(resolved@)).bytes(),
{
    broadcast use vstd::std_specs::hash::group_hash_axioms;

    let (node_order, node_index) = compute_tile_nodes_lm(edges);
    let mut intra: Vec<LmIntraTile> = Vec::new();
    let mut cross: Vec<LmCrossTile> = Vec::new();
    let ghost all = models(resolved@);
    let ghost here = at_tile(all, tile_x, tile_y);
    let ghost plan = tile_plan(edges@, *tables, tile_x, tile_y, all);
    assert(crosses(cross@) =~= Seq::empty());
    assert(by_tile@.contains_key(xy_number(tile_x, tile_y)) || here =~= Seq::empty());
    match by_tile.get(&xy_key(tile_x, tile_y)) {
        Some(list) => {
            let local: HashMap<u32, u32> = index_edges(edges);
            let count: usize = resolved.len();
            proof {
                lemma_places_at(all, tile_x, tile_y);
            }
            let mut i: usize = 0;
            assert(here.take(0) =~= Seq::empty());
            while i < list.len()
                invariant
                    i <= list@.len(),
                    list@ == places_at(all, tile_x, tile_y),
                    count == resolved@.len(),
                    all == models(resolved@),
                    here == at_tile(all, tile_x, tile_y),
                    forall|k: int| 0 <= k < list@.len() ==> #[trigger] list@[k] < count,
                    forall|idx: u32| #[trigger]
                        local@.contains_key(idx) <==> local_of(edges@, idx) is Some,
                    forall|idx: u32| #[trigger]
                        local@.contains_key(idx) ==> local_of(edges@, idx) == Some(local@[idx]),
                    intra@ == intra_of(edges@, node_index@, here.take(i as int)),
                    crosses(cross@) == cross_of(edges@, node_index@, here.take(i as int)),
                decreases list@.len() - i,
            {
                let r: &ResolvedRestriction = &resolved[list[i]];
                let ghost before = cross@;
                proof {
                    assert(here.take(i + 1).drop_last() =~= here.take(i as int));
                    assert(here.take(i + 1).last() == r@);
                }
                match node_index.get(&id_key(&r.via_id)) {
                    Some(via) => {
                        match (local.get(&r.from_edge_idx), local.get(&r.to_edge_idx)) {
                            (Some(from), Some(to)) => {
                                intra.push(
                                    LmIntraTile {
                                        from_seg: *from,
                                        via_node: *via,
                                        to_seg: *to,
                                        flags: r.flags,
                                    },
                                );
                            },
                            _ => {
                                cross.push(
                                    LmCrossTile {
                                        from_id: r.from_stable_id.clone(),
                                        via_node_local: *via,
                                        to_id: r.to_stable_id.clone(),
                                        flags: r.flags,
                                    },
                                );
                                assert(crosses(cross@) =~= crosses(before).push(
                                    cross_out(cross@.last()),
                                ));
                            },
                        }
                    },
                    None => {},
                }
                i += 1;
            }
            assert(here.take(i as int) =~= here);
        },
        None => {},
    }
    proof {
        let ends = endpoints(edges@);
        assert forall|i: int| 0 <= i < edges@.len() implies node_index@.contains_key(
            id_number((#[trigger] edges@[i]).start_id@),
        ) && node_index@.contains_key(id_number(edges@[i].end_id@)) by {
            lemma_distinct_contains(ends, 2 * i);
            lemma_distinct_contains(ends, 2 * i + 1);
            assert(ends[2 * i] == edges@[i].start_id);
            assert(ends[2 * i + 1] == edges@[i].end_id);
            let j = choose|j: int|
                0 <= j < node_order@.len() && node_order@[j] == edges@[i].start_id;
            let k = choose|k: int|
                0 <= k < node_order@.len() && node_order@[k] == edges@[i].end_id;
            assert(node_index@.contains_key(id_number(node_order@[j]@)));
            assert(node_index@.contains_key(id_number(node_order@[k]@)));
        }
        assert(plan_of(
            edges@,
            node_order@,
            node_index@,
            *tables,
            tile_x,
            tile_y,
            intra@,
            cross@,
        ) =~= plan);
    }
    build_lm_tile_payload(
        edges,
        node_order.as_slice(),
        &node_index,
        tables,
        tile_x,
        tile_y,
        intra.as_slice(),
        cross.as_slice(),
    )
}

/// How some cross-tile restrictions are written.
pub open spec fn crosses(v: Seq<LmCrossTile>) -> Seq<CrossOut> {
    Seq::new(v.len(), |i: int| cross_out(v[i]))
}

/// A stored edge, once for each tile that it lies in.
#[derive(Debug)]
pub struct EdgeRow {
    pub edge_idx: i64,
    pub start_id: ElementId,
    pub end_id: ElementId,
    pub geom_blob: Vec<u8>,
    pub length_cm: i64,
    pub frc: i64,
    pub fow: i64,
    pub direction: i64,
    pub tile_x: i64,
    pub tile_y: i64,
    pub tile_id: i64,
    pub stable_id: String,
}

/// What an `LmEdge` holds.
#[verifier::ext_equal]
pub struct EdgeModel {
    pub edge_idx: u32,
    pub stable_id: Seq<char>,
    pub start_id: ElementId,
    pub end_id: ElementId,
    pub geom: Seq<(i32, i32)>,
    pub length_cm: u32,
    pub frc: u8,
    pub fow: u8,
    pub direction: u8,
}

impl View for LmEdge {
    type V = EdgeModel;

    open spec fn view(&self) -> EdgeModel {
        EdgeModel {
            edge_idx: self.edge_idx,
            stable_id: self.stable_id@,
            start_id: self.start_id,
            end_id: self.end_id,
            geom: self.geom@,
            length_cm: self.length_cm,
            frc: self.frc,
            fow: self.fow,
            direction: self.direction,
        }
    }
}

/// The edge that a row stores.
pub open spec fn edge_of(row: EdgeRow) -> EdgeModel {
    EdgeModel {
        edge_idx: low32(row.edge_idx as int),
        stable_id: row.stable_id@,
        start_id: row.start_id,
        end_id: row.end_id,
        geom: blob_vertices(row.geom_blob@),
        length_cm: low32(row.length_cm as int),
        frc: low8(row.frc as int),
        fow: low8(row.fow as int),
        direction: low8(row.direction as int),
    }
}

/// The tile that a row belongs to.
pub open spec fn tile_of(row: EdgeRow) -> (u32, u32) {
    (low32(row.tile_x as int), low32(row.tile_y as int))
}

/// Consecutive rows of one tile.
#[verifier::ext_equal]
pub struct TileRun {
    pub tile: (u32, u32),
    /// As in the last of the rows.
    pub tile_id: u64,
    pub edges: Seq<EdgeModel>,
}

/// `rows` cut wherever the tile changes.
pub open spec fn runs_of(rows: Seq<EdgeRow>) -> Seq<TileRun>
    decreases rows.len(),
{
    if rows.len() == 0 {
        Seq::empty()
    } else {
        let before = runs_of(rows.drop_last());
        let row = rows.last();
        if before.len() > 0 && before.last().tile == tile_of(row) {
            before.drop_last().push(extended(before.last(), row))
        } else {
            before.push(started(row))
        }
    }
}

/// A run of one row.
pub open spec fn started(row: EdgeRow) -> TileRun {
    TileRun {
        tile: tile_of(row),
        tile_id: low64(row.tile_id as int),
        edges: seq![edge_of(row)],
    }
}

/// A run with one more row of its tile.
pub open spec fn extended(run: TileRun, row: EdgeRow) -> TileRun {
    TileRun {
        tile_id: low64(row.tile_id as int),
        edges: run.edges.push(edge_of(row)),
        ..run
    }
}

/// A row arrives while `open` is being collected: what is collected then, and which
/// run is complete.
pub open spec fn fed(open: Option<TileRun>, row: EdgeRow) -> (Option<TileRun>, Option<TileRun>) {
    match open {
        Some(run) => if run.tile == tile_of(row) {
            (Some(extended(run, row)), None)
        } else {
            (Some(started(row)), Some(run))
        },
        None => (Some(started(row)), None),
    }
}

/// The edges of one tile.
#[derive(Debug)]
pub struct TileEdges {
    pub tile_x: u32,
    pub tile_y: u32,
    pub tile_id: u64,
    pub edges: Vec<LmEdge>,
}

/// The models of some edges.
pub open spec fn edge_models(v: Seq<LmEdge>) -> Seq<EdgeModel> {
    Seq::new(v.len(), |i: int| v[i]@)
}

impl View for TileEdges {
    type V = TileRun;

    open spec fn view(&self) -> TileRun {
        TileRun {
            tile: (self.tile_x, self.tile_y),
            tile_id: self.tile_id,
            edges: edge_models(self.edges@),
        }
    }
}

/// The view of an optional tile.
pub open spec fn run_of(t: Option<TileEdges>) -> Option<TileRun> {
    match t {
        Some(t) => Some(t@),
        None => None,
    }
}

/// Collects rows that arrive tile by tile, so that only one tile is held at a time.
#[derive(Debug)]
pub struct TileStream {
    open: Option<TileEdges>,
}

impl TileStream {
    /// The run being collected.
    pub closed spec fn open_run(self) -> Option<TileRun> {
        run_of(self.open)
    }

    /// A stream that no row has arrived in.
    pub fn new() -> (s: TileStream)
        ensures
            s.open_run() is None,
    {
        TileStream { open: None }
    }

    /// Take in the next row. Returns the previous tile if this row starts another.
    pub fn push(&mut self, row: EdgeRow) -> (done: Option<TileEdges>)
        ensures
            (final(self).open_run(), run_of(done)) == fed(old(self).open_run(), row),
    {
        let tile_x: u32 = low_u32(row.tile_x);
        let tile_y: u32 = low_u32(row.tile_y);
        let tile_id: u64 = low_u64(row.tile_id);
        let edge = LmEdge {
            edge_idx: low_u32(row.edge_idx),
            stable_id: row.stable_id,
            start_id: row.start_id,
            end_id: row.end_id,
            geom: blob_to_geom(row.geom_blob.as_slice()),
            length_cm: low_u32(row.length_cm),
            frc: low_u8(row.frc),
            fow: low_u8(row.fow),
            direction: low_u8(row.direction),
        };
        assert(edge@ =~= edge_of(row));
        match self.open.take() {
            Some(mut t) => {
                if t.tile_x == tile_x && t.tile_y == tile_y {
                    let ghost before = t.edges@;
                    t.tile_id = tile_id;
                    t.edges.push(edge);
                    assert(edge_models(t.edges@) =~= edge_models(before).push(edge@));
                    self.open = Some(t);
                    None
                } else {
                    self.open = Some(Self::start(tile_x, tile_y, tile_id, edge));
                    Some(t)
                }
            },
            None => {
                self.open = Some(Self::start(tile_x, tile_y, tile_id, edge));
                None
            },
        }
    }

    fn start(tile_x: u32, tile_y: u32, tile_id: u64, edge: LmEdge) -> (t: TileEdges)
        ensures
            t@ == (TileRun { tile: (tile_x, tile_y), tile_id, edges: seq![edge@] }),
    {
        let mut edges: Vec<LmEdge> = Vec::new();
        edges.push(edge);
        assert(edge_models(edges@) =~= seq![edge@]);
        TileEdges { tile_x, tile_y, tile_id, edges }
    }

    /// No further row arrives: returns the tile that is still open.
    pub fn finish(self) -> (last: Option<TileEdges>)
        ensures
            run_of(last) == self.open_run(),
    {
        self.open
    }
}

/// What a stream holds, and all runs that it has returned, after `rows`.
pub open spec fn streamed(rows: Seq<EdgeRow>) -> (Option<TileRun>, Seq<TileRun>)
    decreases rows.len(),
{
    if rows.len() == 0 {
        (None, Seq::empty())
    } else {
        let (open, out) = streamed(rows.drop_last());
        let (open2, done) = fed(open, rows.last());
        (
            open2,
            match done {
                Some(run) => out.push(run),
                None => out,
            },
        )
    }
}

/// A stream returns its rows cut wherever the tile changes: all runs but the last
/// while rows arrive, and the last when it is finished.
pub proof fn law_stream_returns_the_runs(rows: Seq<EdgeRow>)
    ensures
        runs_of(rows) == match streamed(rows).0 {
            Some(run) => streamed(rows).1.push(run),
            None => streamed(rows).1,
        },
        streamed(rows).0 is None <==> rows.len() == 0,
    decreases rows.len(),
{
    if rows.len() > 0 {
        let before = rows.drop_last();
        law_stream_returns_the_runs(before);
        let (open, out) = streamed(before);
        if open is Some {
            assert(out.push(open->Some_0).drop_last() =~= out);
        }
    }
}

/// The edges of some runs, one after the other.
pub open spec fn run_edges(runs: Seq<TileRun>) -> Seq<EdgeModel>
    decreases runs.len(),
{
    if runs.len() == 0 {
        Seq::empty()
    } else {
        run_edges(runs.drop_last()) + runs.last().edges
    }
}

/// Cutting rows into runs loses no row and keeps their order.
pub proof fn law_runs_keep_every_row(rows: Seq<EdgeRow>)
    ensures
        run_edges(runs_of(rows)) == Seq::new(rows.len(), |i: int| edge_of(rows[i])),
    decreases rows.len(),
{
    let all = Seq::new(rows.len(), |i: int| edge_of(rows[i]));
    if rows.len() == 0 {
        assert(run_edges(runs_of(rows)) =~= all);
    } else {
        let rest = rows.drop_last();
        let row = rows.last();
        let before = runs_of(rest);
        law_runs_keep_every_row(rest);
        assert(all =~= Seq::new(rest.len(), |i: int| edge_of(rest[i])).push(edge_of(row)));
        if before.len() > 0 && before.last().tile == tile_of(row) {
            let after = runs_of(rows);
            assert(after.drop_last() =~= before.drop_last());
            assert(run_edges(after) =~= run_edges(before).push(edge_of(row)));
        } else {
            assert(before.push(started(row)).drop_last() =~= before);
            assert(run_edges(runs_of(rows)) =~= run_edges(before).push(edge_of(row)));
        }
    }
}

/// Rows that arrive in the order of their tile ids make one run per tile, in that
/// order, so that no tile is written twice.
pub proof fn law_sorted_rows_make_one_run_per_tile(rows: Seq<EdgeRow>)
    requires
        forall|i: int, j: int|
            0 <= i <= j < rows.len() ==> low64((#[trigger] rows[i]).tile_id as int) <= low64(
                (#[trigger] rows[j]).tile_id as int,
            ),
        forall|i: int, j: int|
            0 <= i < rows.len() && 0 <= j < rows.len() ==> (tile_of(#[trigger] rows[i])
                == tile_of(#[trigger] rows[j]) <==> low64(rows[i].tile_id as int) == low64(
                rows[j].tile_id as int,
            )),
    ensures
        forall|i: int, j: int|
            0 <= i < j < runs_of(rows).len() ==> (#[trigger] runs_of(rows)[i]).tile_id < (
            #[trigger] runs_of(rows)[j]).tile_id,
        rows.len() > 0 ==> runs_of(rows).len() > 0 && runs_of(rows).last().tile_id == low64(
            rows.last().tile_id as int,
        ) && runs_of(rows).last().tile == tile_of(rows.last()),
    decreases rows.len(),
{
    if rows.len() > 0 {
        let rest = rows.drop_last();
        assert forall|i: int, j: int| 0 <= i <= j < rest.len() implies low64(
            (#[trigger] rest[i]).tile_id as int,
        ) <= low64((#[trigger] rest[j]).tile_id as int) by {
            assert(rest[i] == rows[i] && rest[j] == rows[j]);
        }
        assert forall|i: int, j: int| 0 <= i < rest.len() && 0 <= j < rest.len() implies (tile_of(
            #[trigger] rest[i],
        ) == tile_of(#[trigger] rest[j]) <==> low64(rest[i].tile_id as int) == low64(
            rest[j].tile_id as int,
        )) by {
            assert(rest[i] == rows[i] && rest[j] == rows[j]);
        }
        law_sorted_rows_make_one_run_per_tile(rest);
        let before = runs_of(rest);
        let after = runs_of(rows);
        if rest.len() > 0 {
            assert(rest.last() == rows[rows.len() - 2]);
            assert(rows.last() == rows[rows.len() - 1]);
        }
        assert forall|i: int, j: int| 0 <= i < j < after.len() implies (#[trigger] after[i]).tile_id
            < (#[trigger] after[j]).tile_id by {
            if j < before.len() - 1 {
                assert(after[i] == before[i] && after[j] == before[j]);
            } else if i < before.len() {
                assert(before[before.len() - 1] == before.last());
                if i < before.len() - 1 {
                    assert(before[i].tile_id < before[before.len() - 1].tile_id);
                }
            }
        }
    }
}

} // verus!
