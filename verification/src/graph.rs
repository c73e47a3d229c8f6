//! The in-memory road network: junction nodes, road segments between them, and
//! the turns that are forbidden.
use std::collections::{HashMap, HashSet};
use vstd::prelude::*;

use crate::bytes::{i64_at, i64_le};

verus! {

/// A junction's place in one loaded network.
#[derive(Debug, Clone, Copy, PartialEq, Eq, Hash, PartialOrd, Ord, Structural)]
pub struct NodeId(pub u32);

/// A road segment's place in one loaded network.
#[derive(Debug, Clone, Copy, PartialEq, Eq, Hash, PartialOrd, Ord, Structural)]
pub struct SegmentId(pub u32);

/// The segment number that stands for "no segment leads into this place".
pub const NO_PRIOR_SEG: u32 = 0xffff_ffff;

/// The ways in which a segment may be driven, relative to its geometry.
#[derive(Debug, Clone, Copy, PartialEq, Eq, Structural)]
pub enum Direction {
    Both,
    Forward,
    Backward,
}

/// A tile of the web-mercator pyramid.
#[derive(Debug, Clone, Copy, PartialEq, Eq, Hash, Structural)]
pub struct TileKey {
    pub z: u8,
    pub x: u32,
    pub y: u32,
}

/// A forbidden turn: from one segment, over a node, into another segment.
#[derive(Debug, Clone, Copy, PartialEq, Eq, Structural)]
pub struct TurnRestriction {
    pub from_seg: SegmentId,
    pub via_node: NodeId,
    pub to_seg: SegmentId,
}

/// A junction. Coordinates are in units of 1e-7 degree.
#[derive(Debug, Clone)]
pub struct NetworkNode {
    pub id: NodeId,
    pub lon: i32,
    pub lat: i32,
    /// Opaque identifier supplied by the tile provider, the same in every tile
    /// that holds the node.
    pub stable_id: String,
    pub is_boundary: bool,
}

/// What a `NetworkNode` holds.
#[verifier::ext_equal]
pub struct NodeModel {
    pub id: NodeId,
    pub lon: i32,
    pub lat: i32,
    pub stable_id: Seq<char>,
    pub is_boundary: bool,
}

impl View for NetworkNode {
    type V = NodeModel;

    open spec fn view(&self) -> NodeModel {
        NodeModel {
            id: self.id,
            lon: self.lon,
            lat: self.lat,
            stable_id: self.stable_id@,
            is_boundary: self.is_boundary,
        }
    }
}

/// A node-to-node road segment as stored in a loaded tile.
#[derive(Debug, Clone)]
pub struct NetworkSegment {
    pub id: SegmentId,
    pub start_node: NodeId,
    pub end_node: NodeId,
    /// Ordered vertices (longitude, latitude), in units of 1e-7 degree.
    pub geometry: Vec<(i32, i32)>,
    /// Length in centimetres, as stored (not derived from the geometry).
    pub length_cm: u32,
    pub frc: u8,
    pub fow: u8,
    pub direction: Direction,
    /// Opaque identifier supplied by the tile provider, the same in every tile
    /// that holds the segment.
    pub stable_id: String,
    /// Sixteen-byte source identifier:
    /// - OpenStreetMap: bytes 0-7 hold the way id, bytes 8-15 are zero
    /// - Overture: a full 128-bit identifier
    /// - otherwise: all zero
    pub source_id: [u8; 16],
}

/// What a `NetworkSegment` holds.
#[verifier::ext_equal]
pub struct SegmentModel {
    pub id: SegmentId,
    pub start_node: NodeId,
    pub end_node: NodeId,
    pub geometry: Seq<(i32, i32)>,
    pub length_cm: u32,
    pub frc: u8,
    pub fow: u8,
    pub direction: Direction,
    pub stable_id: Seq<char>,
    pub source_id: Seq<u8>,
}

impl View for NetworkSegment {
    type V = SegmentModel;

    open spec fn view(&self) -> SegmentModel {
        SegmentModel {
            id: self.id,
            start_node: self.start_node,
            end_node: self.end_node,
            geometry: self.geometry@,
            length_cm: self.length_cm,
            frc: self.frc,
            fow: self.fow,
            direction: self.direction,
            stable_id: self.stable_id@,
            source_id: self.source_id@,
        }
    }
}

/// The OpenStreetMap way that a sixteen-byte source identifier names: bytes 8-15
/// are zero and bytes 0-7 are not all zero.
pub open spec fn way_id_of(id: Seq<u8>) -> Option<i64> {
    if (forall|k: int| 8 <= k < 16 ==> id[k] == 0) && (exists|k: int| 0 <= k < 8 && id[k] != 0) {
        Some(i64_at(id, 0) as i64)
    } else {
        None
    }
}

impl NetworkSegment {
    /// The OpenStreetMap way that this segment came from, if it came from one.
    pub fn osm_way_id(&self) -> (r: Option<i64>)
        ensures
            r == way_id_of(self.source_id@),
    {
        let mut high_zero = true;
        let mut low_zero = true;
        let mut i: usize = 0;
        while i < 8
            invariant
                i <= 8,
                high_zero == (forall|k: int| 8 <= k < 8 + i ==> self.source_id@[k] == 0),
                low_zero == (forall|k: int| 0 <= k < i ==> self.source_id@[k] == 0),
            decreases 8 - i,
        {
            if self.source_id[i] != 0 {
                low_zero = false;
            }
            if self.source_id[8 + i] != 0 {
                high_zero = false;
            }
            i += 1;
        }
        if high_zero && !low_zero {
            Some(i64_le(self.source_id.as_slice(), 0))
        } else {
            None
        }
    }
}

/// What a `Graph` holds.
#[verifier::ext_equal]
pub struct GraphModel {
    pub nodes: Map<u32, NodeModel>,
    pub segments: Map<u32, SegmentModel>,
    /// The ids of the segments, in the order in which they first arrived.
    pub order: Seq<SegmentId>,
    /// For each node, the segments that start or end there, oldest first.
    pub touching: Map<u32, Seq<SegmentId>>,
    pub restrictions: Seq<TurnRestriction>,
    pub loaded: Set<TileKey>,
}

/// `s` without any occurrence of `id`.
pub open spec fn without(s: Seq<SegmentId>, id: SegmentId) -> Seq<SegmentId>
    decreases s.len(),
{
    if s.len() == 0 {
        s
    } else if s.last() == id {
        without(s.drop_last(), id)
    } else {
        without(s.drop_last(), id).push(s.last())
    }
}

/// Segments that touch node `n`.
pub open spec fn touching_at(t: Map<u32, Seq<SegmentId>>, n: NodeId) -> Seq<SegmentId> {
    if t.contains_key(n.0) {
        t[n.0]
    } else {
        Seq::empty()
    }
}

/// `t` with `id` taken from the list of node `n`.
pub open spec fn detached(t: Map<u32, Seq<SegmentId>>, n: NodeId, id: SegmentId) -> Map<
    u32,
    Seq<SegmentId>,
> {
    t.insert(n.0, without(touching_at(t, n), id))
}

/// `t` with `id` added at the end of the list of node `n`.
pub open spec fn attached(t: Map<u32, Seq<SegmentId>>, n: NodeId, id: SegmentId) -> Map<
    u32,
    Seq<SegmentId>,
> {
    t.insert(n.0, touching_at(t, n).push(id))
}

impl GraphModel {
    /// The network that holds nothing.
    pub open spec fn empty() -> GraphModel {
        GraphModel {
            nodes: Map::empty(),
            segments: Map::empty(),
            order: Seq::empty(),
            touching: Map::empty(),
            restrictions: Seq::empty(),
            loaded: Set::empty(),
        }
    }

    /// The network with `n` added, in place of any node of the same id.
    pub open spec fn with_node(self, n: NodeModel) -> GraphModel {
        GraphModel { nodes: self.nodes.insert(n.id.0, n), ..self }
    }

    /// The lists of touching segments once segment `id` is gone from them.
    pub open spec fn touching_without(self, id: SegmentId) -> Map<u32, Seq<SegmentId>> {
        if self.segments.contains_key(id.0) {
            let gone = self.segments[id.0];
            detached(detached(self.touching, gone.start_node, id), gone.end_node, id)
        } else {
            self.touching
        }
    }

    /// The network with `s` added, in place of any segment of the same id.
    pub open spec fn with_segment(self, s: SegmentModel) -> GraphModel {
        let cleared = self.touching_without(s.id);
        let first = attached(cleared, s.start_node, s.id);
        GraphModel {
            segments: self.segments.insert(s.id.0, s),
            order: if self.segments.contains_key(s.id.0) {
                self.order
            } else {
                self.order.push(s.id)
            },
            touching: if s.end_node == s.start_node {
                first
            } else {
                attached(first, s.end_node, s.id)
            },
            ..self
        }
    }

    /// The network with one more forbidden turn.
    pub open spec fn with_restriction(self, r: TurnRestriction) -> GraphModel {
        GraphModel { restrictions: self.restrictions.push(r), ..self }
    }

    /// The network with tile `k` recorded as loaded.
    pub open spec fn with_loaded(self, k: TileKey) -> GraphModel {
        GraphModel { loaded: self.loaded.insert(k), ..self }
    }

    /// Whether segment `id` is there and starts or ends at `n`.
    pub open spec fn touches(self, id: SegmentId, n: NodeId) -> bool {
        self.segments.contains_key(id.0) && (self.segments[id.0].start_node == n
            || self.segments[id.0].end_node == n)
    }

    /// The far end of segment `id` as seen from `n`, if the segment touches `n`.
    pub open spec fn other_end(self, id: SegmentId, n: NodeId) -> Option<NodeId> {
        if !self.touches(id, n) {
            None
        } else if self.segments[id.0].start_node == n {
            Some(self.segments[id.0].end_node)
        } else {
            Some(self.segments[id.0].start_node)
        }
    }

    /// The far ends and ids of the segments that touch `n`, oldest first.
    pub open spec fn neighbors(self, n: NodeId) -> Seq<(NodeId, SegmentId)> {
        let ids = touching_at(self.touching, n);
        Seq::new(ids.len(), |i: int| (self.other_end(ids[i], n)->Some_0, ids[i]))
    }

    /// The nodes one segment away from `n`.
    pub open spec fn neighbor_nodes(self, n: NodeId) -> Set<NodeId> {
        Set::new(|m: NodeId| exists|s: SegmentId| self.other_end(s, n) == Some(m))
    }

    /// Whether a location reference may have a point at `n`: not at a mere
    /// pass-through between exactly two other nodes.
    pub open spec fn valid_node(self, n: NodeId) -> bool {
        self.neighbor_nodes(n).len() != 2
    }

    /// Whether segment `id` may be driven away from `n`.
    pub open spec fn departs(self, id: SegmentId, n: NodeId) -> bool {
        self.segments.contains_key(id.0) && match self.segments[id.0].direction {
            Direction::Both => self.touches(id, n),
            Direction::Forward => self.segments[id.0].start_node == n,
            Direction::Backward => self.segments[id.0].end_node == n,
        }
    }

    /// The segments that may be driven away from `n`, oldest first.
    pub open spec fn outgoing(self, n: NodeId) -> Seq<SegmentId> {
        departing(self, touching_at(self.touching, n), n)
    }

    /// The node where a walk over `path` from `n` ends, if every segment
    /// continues where the one before it ended.
    pub open spec fn walk_end(self, n: NodeId, path: Seq<SegmentId>) -> Option<NodeId>
        decreases path.len(),
    {
        if path.len() == 0 {
            Some(n)
        } else {
            match self.walk_end(n, path.drop_last()) {
                Some(m) => self.other_end(path.last(), m),
                None => None,
            }
        }
    }

    /// Every entry is stored under its own id, `order` lists each segment once,
    /// and `touching` lists exactly the segments that touch each node, each once.
    pub open spec fn wf(self) -> bool {
        &&& forall|k: u32| #[trigger] self.nodes.contains_key(k) ==> self.nodes[k].id.0 == k
        &&& forall|k: u32| #[trigger]
            self.segments.contains_key(k) ==> self.segments[k].id.0 == k
        &&& self.order.no_duplicates()
        &&& forall|s: SegmentId| #[trigger]
            self.order.contains(s) <==> self.segments.contains_key(s.0)
        &&& forall|n: NodeId| (#[trigger] touching_at(self.touching, n)).no_duplicates()
        &&& forall|n: NodeId, s: SegmentId| #[trigger]
            touching_at(self.touching, n).contains(s) <==> self.touches(s, n)
    }
}

/// Those of `ids` that may be driven away from `n`.
pub open spec fn departing(g: GraphModel, ids: Seq<SegmentId>, n: NodeId) -> Seq<SegmentId>
    decreases ids.len(),
{
    if ids.len() == 0 {
        ids
    } else if g.departs(ids.last(), n) {
        departing(g, ids.drop_last(), n).push(ids.last())
    } else {
        departing(g, ids.drop_last(), n)
    }
}

proof fn lemma_without(s: Seq<SegmentId>, id: SegmentId)
    ensures
        forall|x: SegmentId| #[trigger]
            without(s, id).contains(x) <==> x != id && s.contains(x),
        s.no_duplicates() ==> without(s, id).no_duplicates(),
    decreases s.len(),
{
    if s.len() > 0 {
        let p = s.drop_last();
        lemma_without(p, id);
        assert forall|x: SegmentId| #[trigger]
            without(s, id).contains(x) <==> x != id && s.contains(x) by {
            if s.contains(x) {
                let k = choose|k: int| 0 <= k < s.len() && s[k] == x;
                if k < p.len() {
                    assert(p[k] == x);
                }
            }
            if p.contains(x) {
                let k = choose|k: int| 0 <= k < p.len() && p[k] == x;
                assert(s[k] == x);
            }
            if s.last() != id {
                let w = without(p, id);
                if w.contains(x) {
                    let k = choose|k: int| 0 <= k < w.len() && w[k] == x;
                    assert(w.push(s.last())[k] == x);
                }
                assert(w.push(s.last())[w.len() as int] == s.last());
                if w.push(s.last()).contains(x) && x != s.last() {
                    let k = choose|k: int| 0 <= k < w.len() + 1 && w.push(s.last())[k] == x;
                    assert(w[k] == x);
                }
            }
        }
        if s.no_duplicates() {
            assert(p.no_duplicates());
            let w = without(p, id);
            assert(!p.contains(s.last()));
            assert(!w.contains(s.last()));
        }
    }
}

proof fn lemma_push_contains(s: Seq<SegmentId>, y: SegmentId)
    ensures
        forall|x: SegmentId| #[trigger] s.push(y).contains(x) <==> x == y || s.contains(x),
        s.no_duplicates() && !s.contains(y) ==> s.push(y).no_duplicates(),
{
    assert forall|x: SegmentId| #[trigger] s.push(y).contains(x) <==> x == y || s.contains(x) by {
        assert(s.push(y)[s.len() as int] == y);
        if s.contains(x) {
            let k = choose|k: int| 0 <= k < s.len() && s[k] == x;
            assert(s.push(y)[k] == x);
        }
        if s.push(y).contains(x) && x != y {
            let k = choose|k: int| 0 <= k < s.len() + 1 && s.push(y)[k] == x;
            assert(s[k] == x);
        }
    }
}

/// Adding a segment, new or in place of another, keeps every list of touching
/// segments exact.
pub proof fn lemma_with_segment_wf(g: GraphModel, s: SegmentModel)
    requires
        g.wf(),
    ensures
        g.with_segment(s).wf(),
{
    let r = g.with_segment(s);
    let c = g.touching_without(s.id);
    let first = attached(c, s.start_node, s.id);
    lemma_push_contains(g.order, s.id);
    assert forall|n: NodeId| true implies ({
        &&& (#[trigger] touching_at(c, n)).no_duplicates()
        &&& forall|x: SegmentId| #[trigger]
            touching_at(c, n).contains(x) <==> x != s.id && g.touches(x, n)
    }) by {
        if g.segments.contains_key(s.id.0) {
            let gone = g.segments[s.id.0];
            let d = detached(g.touching, gone.start_node, s.id);
            let before = touching_at(g.touching, n);
            let between = touching_at(d, n);
            lemma_without(before, s.id);
            lemma_without(between, s.id);
            assert(between == if n == gone.start_node {
                without(before, s.id)
            } else {
                before
            });
            assert(touching_at(c, n) == if n == gone.end_node {
                without(between, s.id)
            } else {
                between
            });
            assert(before.contains(s.id) <==> g.touches(s.id, n));
            assert(before.no_duplicates());
        }
        assert forall|x: SegmentId| #[trigger]
            touching_at(c, n).contains(x) <==> x != s.id && g.touches(x, n) by {
            assert(touching_at(g.touching, n).contains(x) <==> g.touches(x, n));
        }
    }
    assert forall|n: NodeId| (#[trigger] touching_at(r.touching, n)).no_duplicates() by {
        lemma_push_contains(touching_at(c, n), s.id);
    }
    assert forall|n: NodeId, x: SegmentId| #[trigger]
        touching_at(r.touching, n).contains(x) <==> r.touches(x, n) by {
        lemma_push_contains(touching_at(c, n), s.id);
        if n == s.start_node || n == s.end_node {
            assert(touching_at(r.touching, n) == touching_at(c, n).push(s.id));
        }
    }
}

/// One number for a tile: different tiles have different numbers.
pub open spec fn tile_number(k: TileKey) -> u128 {
    (k.z as int * 0x1_0000_0000_0000_0000 + k.x as int * 0x1_0000_0000 + k.y as int) as u128
}

proof fn lemma_tile_number_injective(a: TileKey, b: TileKey)
    requires
        tile_number(a) == tile_number(b),
    ensures
        a == b,
{
    assert(a.z == b.z && a.x == b.x && a.y == b.y);
}

/// Accumulated nodes, segments and forbidden turns.
pub struct Graph {
    nodes: HashMap<u32, NetworkNode>,
    segments: HashMap<u32, NetworkSegment>,
    order: Vec<SegmentId>,
    touching: HashMap<u32, Vec<SegmentId>>,
    restrictions: Vec<TurnRestriction>,
    loaded: HashSet<u128>,
}

impl View for Graph {
    type V = GraphModel;

    closed spec fn view(&self) -> GraphModel {
        GraphModel {
            nodes: self.nodes@.map_values(|n: NetworkNode| n@),
            segments: self.segments@.map_values(|s: NetworkSegment| s@),
            order: self.order@,
            touching: self.touching@.map_values(|v: Vec<SegmentId>| v@),
            restrictions: self.restrictions@,
            loaded: Set::new(|k: TileKey| self.loaded@.contains(tile_number(k))),
        }
    }
}

/// Append `id` to the list of node `n`.
fn attach(t: &mut HashMap<u32, Vec<SegmentId>>, n: NodeId, id: SegmentId)
    ensures
        final(t)@.map_values(|v: Vec<SegmentId>| v@) == attached(
            old(t)@.map_values(|v: Vec<SegmentId>| v@),
            n,
            id,
        ),
{
    broadcast use vstd::std_specs::hash::group_hash_axioms;

    let mut list: Vec<SegmentId> = match t.remove(&n.0) {
        Some(l) => l,
        None => Vec::new(),
    };
    list.push(id);
    t.insert(n.0, list);
    assert(t@.map_values(|v: Vec<SegmentId>| v@) =~= attached(
        old(t)@.map_values(|v: Vec<SegmentId>| v@),
        n,
        id,
    ));
}

/// Take `id` out of the list of node `n`.
fn detach(t: &mut HashMap<u32, Vec<SegmentId>>, n: NodeId, id: SegmentId)
    ensures
        final(t)@.map_values(|v: Vec<SegmentId>| v@) == detached(
            old(t)@.map_values(|v: Vec<SegmentId>| v@),
            n,
            id,
        ),
{
    broadcast use vstd::std_specs::hash::group_hash_axioms;

    let before: Vec<SegmentId> = match t.remove(&n.0) {
        Some(l) => l,
        None => Vec::new(),
    };
    let mut list: Vec<SegmentId> = Vec::new();
    let mut i: usize = 0;
    while i < before.len()
        invariant
            i <= before.len(),
            list@ == without(before@.take(i as int), id),
        decreases before.len() - i,
    {
        assert(before@.take(i + 1).drop_last() =~= before@.take(i as int));
        if before[i] != id {
            list.push(before[i]);
        }
        i += 1;
    }
    assert(before@.take(i as int) =~= before@);
    t.insert(n.0, list);
    assert(t@.map_values(|v: Vec<SegmentId>| v@) =~= detached(
        old(t)@.map_values(|v: Vec<SegmentId>| v@),
        n,
        id,
    ));
}

impl Graph {
    /// An empty network.
    pub fn new() -> (g: Graph)
        ensures
            g@ == GraphModel::empty(),
            g@.wf(),
    {
        broadcast use vstd::std_specs::hash::group_hash_axioms;

        let g = Graph {
            nodes: HashMap::new(),
            segments: HashMap::new(),
            order: Vec::new(),
            touching: HashMap::new(),
            restrictions: Vec::new(),
            loaded: HashSet::new(),
        };
        assert(g@ =~= GraphModel::empty());
        g
    }

    /// The node with this id.
    pub fn node(&self, id: NodeId) -> (r: Option<&NetworkNode>)
        ensures
            r is Some <==> self@.nodes.contains_key(id.0),
            r is Some ==> r->Some_0@ == self@.nodes[id.0],
    {
        broadcast use vstd::std_specs::hash::group_hash_axioms;

        self.nodes.get(&id.0)
    }

    /// The segment with this id.
    pub fn segment(&self, id: SegmentId) -> (r: Option<&NetworkSegment>)
        ensures
            r is Some <==> self@.segments.contains_key(id.0),
            r is Some ==> r->Some_0@ == self@.segments[id.0],
    {
        broadcast use vstd::std_specs::hash::group_hash_axioms;

        self.segments.get(&id.0)
    }

    /// How many nodes there are.
    pub fn nodes_count(&self) -> (n: usize)
        ensures
            n == self@.nodes.len(),
    {
        broadcast use vstd::std_specs::hash::group_hash_axioms;

        assert(self@.nodes.dom() =~= self.nodes@.dom());
        self.nodes.len()
    }

    /// How many segments there are.
    pub fn segments_count(&self) -> (n: usize)
        ensures
            n == self@.segments.len(),
    {
        broadcast use vstd::std_specs::hash::group_hash_axioms;

        assert(self@.segments.dom() =~= self.segments@.dom());
        self.segments.len()
    }

    /// The ids of all segments, in the order in which they first arrived.
    pub fn segment_ids(&self) -> (r: &Vec<SegmentId>)
        ensures
            r@ == self@.order,
    {
        &self.order
    }

    /// The forbidden turns, oldest first.
    pub fn restrictions(&self) -> (r: &Vec<TurnRestriction>)
        ensures
            r@ == self@.restrictions,
    {
        &self.restrictions
    }

    /// How many forbidden turns there are.
    pub fn restrictions_count(&self) -> (n: usize)
        ensures
            n == self@.restrictions.len(),
    {
        self.restrictions.len()
    }

    /// Add a node, in place of any node of the same id.
    pub fn add_node(&mut self, n: NetworkNode)
        ensures
            final(self)@ == old(self)@.with_node(n@),
            old(self)@.wf() ==> final(self)@.wf(),
    {
        broadcast use vstd::std_specs::hash::group_hash_axioms;

        let id: u32 = n.id.0;
        self.nodes.insert(id, n);
        assert(self@ =~= old(self)@.with_node(n@));
    }

    /// Add a segment, in place of any segment of the same id.
    pub fn add_segment(&mut self, s: NetworkSegment)
        ensures
            final(self)@ == old(self)@.with_segment(s@),
            old(self)@.wf() ==> final(self)@.wf(),
    {
        broadcast use vstd::std_specs::hash::group_hash_axioms;

        let ghost g0 = self@;
        let id: SegmentId = s.id;
        let start: NodeId = s.start_node;
        let end: NodeId = s.end_node;
        let known: Option<(NodeId, NodeId)> = match self.segments.get(&id.0) {
            Some(gone) => Some((gone.start_node, gone.end_node)),
            None => None,
        };
        match known {
            Some((a, b)) => {
                detach(&mut self.touching, a, id);
                detach(&mut self.touching, b, id);
            },
            None => {
                self.order.push(id);
            },
        }
        attach(&mut self.touching, start, id);
        if end != start {
            attach(&mut self.touching, end, id);
        }
        self.segments.insert(id.0, s);
        assert(self@ =~= g0.with_segment(s@));
        proof {
            if g0.wf() {
                lemma_with_segment_wf(g0, s@);
            }
        }
    }

    /// Forbid a turn.
    pub fn add_restriction(&mut self, r: TurnRestriction)
        ensures
            final(self)@ == old(self)@.with_restriction(r),
            old(self)@.wf() ==> final(self)@.wf(),
    {
        self.restrictions.push(r);
        assert(self@ =~= old(self)@.with_restriction(r));
    }

    /// Record that a tile needs no further loading.
    pub fn mark_tile_loaded(&mut self, z: u8, x: u32, y: u32)
        ensures
            final(self)@ == old(self)@.with_loaded(TileKey { z, x, y }),
            old(self)@.wf() ==> final(self)@.wf(),
    {
        broadcast use vstd::std_specs::hash::group_hash_axioms;

        let ghost key = TileKey { z, x, y };
        let number: u128 = z as u128 * 0x1_0000_0000_0000_0000 + x as u128 * 0x1_0000_0000
            + y as u128;
        self.loaded.insert(number);
        proof {
            assert forall|k: TileKey| tile_number(k) == number implies k == key by {
                lemma_tile_number_injective(k, key);
            }
        }
        assert(self@.loaded =~= old(self)@.loaded.insert(key));
        assert(self@ =~= old(self)@.with_loaded(key));
    }

    /// Whether a tile was recorded as loaded.
    pub fn is_tile_loaded(&self, z: u8, x: u32, y: u32) -> (r: bool)
        ensures
            r == self@.loaded.contains(TileKey { z, x, y }),
    {
        broadcast use vstd::std_specs::hash::group_hash_axioms;

        let number: u128 = z as u128 * 0x1_0000_0000_0000_0000 + x as u128 * 0x1_0000_0000
            + y as u128;
        self.loaded.contains(&number)
    }

    /// The far end of a segment as seen from `n`, if the segment touches `n`.
    pub fn other_end(&self, id: SegmentId, n: NodeId) -> (r: Option<NodeId>)
        ensures
            r == self@.other_end(id, n),
    {
        match self.segment(id) {
            Some(s) => if s.start_node == n {
                Some(s.end_node)
            } else if s.end_node == n {
                Some(s.start_node)
            } else {
                None
            },
            None => None,
        }
    }

    /// The node where a walk over `path` from `start` ends, if every segment
    /// continues where the one before it ended.
    pub fn trace_end_node(&self, start: NodeId, path: &[SegmentId]) -> (r: Option<NodeId>)
        ensures
            r == self@.walk_end(start, path@),
    {
        let mut at: NodeId = start;
        let mut i: usize = 0;
        while i < path.len()
            invariant
                i <= path@.len(),
                self@.walk_end(start, path@.take(i as int)) == Some(at),
            decreases path@.len() - i,
        {
            assert(path@.take(i + 1).drop_last() =~= path@.take(i as int));
            match self.other_end(path[i], at) {
                Some(m) => {
                    at = m;
                },
                None => {
                    proof {
                        lemma_walk_broken(self@, start, path@, i + 1);
                    }
                    return None;
                },
            }
            i += 1;
        }
        assert(path@.take(i as int) =~= path@);
        Some(at)
    }

    /// The far ends and ids of the segments that touch `n`, oldest first.
    pub fn topology_neighbors(&self, n: NodeId) -> (r: Vec<(NodeId, SegmentId)>)
        requires
            self@.wf(),
        ensures
            r@ == self@.neighbors(n),
    {
        broadcast use vstd::std_specs::hash::group_hash_axioms;

        let mut out: Vec<(NodeId, SegmentId)> = Vec::new();
        match self.touching.get(&n.0) {
            Some(ids) => {
                assert(touching_at(self@.touching, n) == ids@);
                let mut i: usize = 0;
                while i < ids.len()
                    invariant
                        i <= ids.len(),
                        self@.wf(),
                        touching_at(self@.touching, n) == ids@,
                        out@ == self@.neighbors(n).take(i as int),
                    decreases ids.len() - i,
                {
                    let id: SegmentId = ids[i];
                    assert(ids@.contains(id));
                    match self.other_end(id, n) {
                        Some(m) => {
                            out.push((m, id));
                        },
                        None => {
                            assert(false);
                        },
                    }
                    assert(self@.neighbors(n).take(i + 1) =~= self@.neighbors(n).take(
                        i as int,
                    ).push(self@.neighbors(n)[i as int]));
                    i += 1;
                }
            },
            None => {
                assert(touching_at(self@.touching, n) =~= Seq::<SegmentId>::empty());
            },
        }
        assert(out@ =~= self@.neighbors(n));
        out
    }

    /// Whether a location reference may have a point at `n`: not at a mere
    /// pass-through between exactly two other nodes.
    pub fn is_valid_node(&self, n: NodeId) -> (r: bool)
        requires
            self@.wf(),
        ensures
            r == self@.valid_node(n),
    {
        let around: Vec<(NodeId, SegmentId)> = self.topology_neighbors(n);
        let mut distinct: Vec<NodeId> = Vec::new();
        let mut i: usize = 0;
        while i < around.len()
            invariant
                i <= around.len(),
                distinct@.no_duplicates(),
                forall|m: NodeId| #[trigger]
                    distinct@.contains(m) <==> exists|k: int| 0 <= k < i && around@[k].0 == m,
            decreases around.len() - i,
        {
            let m: NodeId = around[i].0;
            let mut known = false;
            let mut j: usize = 0;
            while j < distinct.len()
                invariant
                    j <= distinct.len(),
                    known == exists|k: int| 0 <= k < j && distinct@[k] == m,
                decreases distinct.len() - j,
            {
                if distinct[j] == m {
                    known = true;
                }
                j += 1;
            }
            let ghost before = distinct@;
            if !known {
                distinct.push(m);
            }
            proof {
                assert(known <==> before.contains(m));
                assert forall|x: NodeId| #[trigger]
                    distinct@.contains(x) <==> exists|k: int|
                        0 <= k < i + 1 && around@[k].0 == x by {
                    if before.contains(x) {
                        let k = choose|k: int| 0 <= k < before.len() && before[k] == x;
                        assert(distinct@[k] == x);
                    }
                    if !known {
                        assert(distinct@[before.len() as int] == m);
                    }
                    if distinct@.contains(x) && x != m {
                        let k = choose|k: int| 0 <= k < distinct@.len() && distinct@[k] == x;
                        assert(before[k] == x);
                    }
                    assert(around@[i as int].0 == m);
                }
            }
            i += 1;
        }
        proof {
            let ids = touching_at(self@.touching, n);
            assert forall|m: NodeId| #[trigger]
                self@.neighbor_nodes(n).contains(m) <==> distinct@.to_set().contains(m) by {
                if self@.neighbor_nodes(n).contains(m) {
                    let s = choose|s: SegmentId| self@.other_end(s, n) == Some(m);
                    assert(ids.contains(s));
                    let k = choose|k: int| 0 <= k < ids.len() && ids[k] == s;
                    assert(around@[k].0 == m);
                }
                if distinct@.contains(m) {
                    let k = choose|k: int| 0 <= k < around@.len() && around@[k].0 == m;
                    assert(ids.contains(ids[k]));
                    assert(self@.other_end(ids[k], n) == Some(m));
                }
            }
            assert(self@.neighbor_nodes(n) =~= distinct@.to_set());
            distinct@.unique_seq_to_set();
        }
        distinct.len() != 2
    }

    /// The segments that may be driven away from `n`, oldest first.
    pub fn outgoing_segments(&self, n: NodeId) -> (r: Vec<SegmentId>)
        ensures
            r@ == self@.outgoing(n),
    {
        broadcast use vstd::std_specs::hash::group_hash_axioms;

        let mut out: Vec<SegmentId> = Vec::new();
        match self.touching.get(&n.0) {
            Some(ids) => {
                assert(touching_at(self@.touching, n) == ids@);
                let mut i: usize = 0;
                while i < ids.len()
                    invariant
                        i <= ids.len(),
                        out@ == departing(self@, ids@.take(i as int), n),
                    decreases ids.len() - i,
                {
                    assert(ids@.take(i + 1).drop_last() =~= ids@.take(i as int));
                    if self.may_depart(ids[i], n) {
                        out.push(ids[i]);
                    }
                    i += 1;
                }
                assert(ids@.take(i as int) =~= ids@);
            },
            None => {
                assert(touching_at(self@.touching, n) =~= Seq::<SegmentId>::empty());
            },
        }
        out
    }

    fn may_depart(&self, id: SegmentId, n: NodeId) -> (r: bool)
        ensures
            r == self@.departs(id, n),
    {
        match self.segment(id) {
            Some(s) => match s.direction {
                Direction::Both => s.start_node == n || s.end_node == n,
                Direction::Forward => s.start_node == n,
                Direction::Backward => s.end_node == n,
            },
            None => false,
        }
    }
}

/// A walk that broke off stays broken off, however it would go on.
proof fn lemma_walk_broken(g: GraphModel, n: NodeId, path: Seq<SegmentId>, k: int)
    requires
        0 <= k <= path.len(),
        g.walk_end(n, path.take(k)) is None,
    ensures
        g.walk_end(n, path) is None,
    decreases path.len() - k,
{
    if k < path.len() {
        assert(path.take(k + 1).drop_last() =~= path.take(k));
        lemma_walk_broken(g, n, path, k + 1);
    } else {
        assert(path.take(k) =~= path);
    }
}

} // verus!
