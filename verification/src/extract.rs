//! Turning measured edges into the rows that tiling reads.
use std::collections::HashSet;
use vstd::prelude::*;

use crate::tile_writer::{
    geom_to_blob, id_key, id_number, lemma_id_number_injective, vertex_bytes, ElementId,
};

verus! {

/// One end of an edge.
#[derive(Debug)]
pub struct EdgeEnd {
    pub node_id: ElementId,
    pub stable_id: String,
    pub lon_e7: i32,
    pub lat_e7: i32,
    /// The tile that the end lies in, and its number on the tile curve.
    pub tile_x: u32,
    pub tile_y: u32,
    pub tile_id: u64,
}

/// An edge with its line on the grid and its ends placed in tiles.
#[derive(Debug)]
pub struct MeasuredEdge {
    pub parent_id: ElementId,
    pub stable_id: String,
    pub geom: Vec<(i32, i32)>,
    pub length_cm: u32,
    pub frc: u8,
    pub fow: u8,
    pub direction: u8,
    pub start: EdgeEnd,
    pub end: EdgeEnd,
}

/// A node to store.
#[derive(Debug)]
pub struct QNode {
    pub node_id: ElementId,
    pub lon_e7: i32,
    pub lat_e7: i32,
    pub tile_x: u32,
    pub tile_y: u32,
    pub stable_id: String,
}

/// An edge to store, for one tile.
#[derive(Debug)]
pub struct QEdge {
    pub edge_idx: u32,
    pub start_id: ElementId,
    pub end_id: ElementId,
    pub parent_id: ElementId,
    pub geom_blob: Vec<u8>,
    pub length_cm: u32,
    pub frc: u8,
    pub fow: u8,
    pub direction: u8,
    pub tile_x: u32,
    pub tile_y: u32,
    pub tile_id: u64,
    pub stable_id: String,
}

/// What a `QNode` holds.
#[verifier::ext_equal]
pub struct QNodeModel {
    pub node_id: ElementId,
    pub lon_e7: i32,
    pub lat_e7: i32,
    pub tile: (u32, u32),
    pub stable_id: Seq<char>,
}

impl View for QNode {
    type V = QNodeModel;

    open spec fn view(&self) -> QNodeModel {
        QNodeModel {
            node_id: self.node_id,
            lon_e7: self.lon_e7,
            lat_e7: self.lat_e7,
            tile: (self.tile_x, self.tile_y),
            stable_id: self.stable_id@,
        }
    }
}

/// What a `QEdge` holds.
#[verifier::ext_equal]
pub struct QEdgeModel {
    pub edge_idx: u32,
    pub start_id: ElementId,
    pub end_id: ElementId,
    pub parent_id: ElementId,
    pub geom_blob: Seq<u8>,
    pub length_cm: u32,
    pub frc: u8,
    pub fow: u8,
    pub direction: u8,
    pub tile: (u32, u32),
    pub tile_id: u64,
    pub stable_id: Seq<char>,
}

impl View for QEdge {
    type V = QEdgeModel;

    open spec fn view(&self) -> QEdgeModel {
        QEdgeModel {
            edge_idx: self.edge_idx,
            start_id: self.start_id,
            end_id: self.end_id,
            parent_id: self.parent_id,
            geom_blob: self.geom_blob@,
            length_cm: self.length_cm,
            frc: self.frc,
            fow: self.fow,
            direction: self.direction,
            tile: (self.tile_x, self.tile_y),
            tile_id: self.tile_id,
            stable_id: self.stable_id@,
        }
    }
}

/// The rows that one edge gives.
#[derive(Debug)]
pub struct EdgeRows {
    pub nodes: Vec<QNode>,
    pub edges: Vec<QEdge>,
}

/// The node to store for an end.
pub open spec fn node_for(e: EdgeEnd) -> QNodeModel {
    QNodeModel {
        node_id: e.node_id,
        lon_e7: e.lon_e7,
        lat_e7: e.lat_e7,
        tile: (e.tile_x, e.tile_y),
        stable_id: e.stable_id@,
    }
}

/// The nodes to store for an edge: each end whose node was not stored before.
pub open spec fn new_nodes(seen: Set<ElementId>, e: MeasuredEdge) -> Seq<QNodeModel> {
    let first = if seen.contains(e.start.node_id) {
        Seq::empty()
    } else {
        seq![node_for(e.start)]
    };
    if seen.contains(e.end.node_id) || e.end.node_id == e.start.node_id {
        first
    } else {
        first.push(node_for(e.end))
    }
}

/// The row of an edge for the tile of one of its ends.
pub open spec fn edge_for(e: MeasuredEdge, edge_idx: u32, end: EdgeEnd) -> QEdgeModel {
    QEdgeModel {
        edge_idx,
        start_id: e.start.node_id,
        end_id: e.end.node_id,
        parent_id: e.parent_id,
        geom_blob: vertex_bytes(e.geom@),
        length_cm: e.length_cm,
        frc: e.frc,
        fow: e.fow,
        direction: e.direction,
        tile: (end.tile_x, end.tile_y),
        tile_id: end.tile_id,
        stable_id: e.stable_id@,
    }
}

/// The rows of an edge: one for the tile of its start, and one for the tile of its
/// end if that is another tile.
pub open spec fn edge_rows(e: MeasuredEdge, edge_idx: u32) -> Seq<QEdgeModel> {
    let first = seq![edge_for(e, edge_idx, e.start)];
    if (e.start.tile_x, e.start.tile_y) == (e.end.tile_x, e.end.tile_y) {
        first
    } else {
        first.push(edge_for(e, edge_idx, e.end))
    }
}

/// The models of some nodes.
pub open spec fn node_models(v: Seq<QNode>) -> Seq<QNodeModel> {
    Seq::new(v.len(), |i: int| v[i]@)
}

/// The models of some edges.
pub open spec fn edge_models(v: Seq<QEdge>) -> Seq<QEdgeModel> {
    Seq::new(v.len(), |i: int| v[i]@)
}

/// Numbers edges and remembers which nodes were stored.
#[derive(Debug)]
pub struct Extractor {
    seen: HashSet<u128>,
    edge_idx: u32,
}

impl Extractor {
    /// The nodes stored so far.
    pub closed spec fn seen_nodes(self) -> Set<ElementId> {
        Set::new(|id: ElementId| self.seen@.contains(id_number(id@)))
    }

    /// The number of the next edge.
    pub closed spec fn next_edge(self) -> u32 {
        self.edge_idx
    }

    /// An extractor that has seen nothing.
    pub fn new() -> (x: Extractor)
        ensures
            x.seen_nodes() == Set::<ElementId>::empty(),
            x.next_edge() == 0,
    {
        let x = Extractor { seen: HashSet::new(), edge_idx: 0 };
        assert(x.seen_nodes() =~= Set::<ElementId>::empty());
        x
    }

    /// How many edges there were.
    pub fn edge_count(&self) -> (n: u32)
        ensures
            n == self.next_edge(),
    {
        self.edge_idx
    }

    /// Whether `id` was not seen before; from now on it was.
    fn first_sight(&mut self, id: ElementId) -> (fresh: bool)
        ensures
            fresh == !old(self).seen_nodes().contains(id),
            final(self).seen_nodes() == old(self).seen_nodes().insert(id),
            final(self).next_edge() == old(self).next_edge(),
    {
        broadcast use vstd::std_specs::hash::group_hash_axioms;

        let key: u128 = id_key(&id);
        let fresh: bool = self.seen.insert(key);
        proof {
            assert forall|other: ElementId| id_number(other@) == key implies other == id by {
                lemma_id_number_injective(other, id);
            }
            assert(self.seen_nodes() =~= old(self).seen_nodes().insert(id));
        }
        fresh
    }

    /// The rows to store for the next edge.
    pub fn add_edge(&mut self, e: &MeasuredEdge) -> (rows: EdgeRows)
        requires
            old(self).next_edge() < u32::MAX,
        ensures
            node_models(rows.nodes@) == new_nodes(old(self).seen_nodes(), *e),
            edge_models(rows.edges@) == edge_rows(*e, old(self).next_edge()),
            final(self).seen_nodes() == old(self).seen_nodes().insert(e.start.node_id).insert(
                e.end.node_id,
            ),
            final(self).next_edge() == old(self).next_edge() + 1,
    {
        let mut nodes: Vec<QNode> = Vec::new();
        let mut edges: Vec<QEdge> = Vec::new();
        assert(node_models(nodes@) =~= Seq::empty());
        if self.first_sight(e.start.node_id) {
            nodes.push(stored_node(&e.start));
            assert(node_models(nodes@) =~= seq![node_for(e.start)]);
        }
        let ghost first = nodes@;
        if self.first_sight(e.end.node_id) {
            nodes.push(stored_node(&e.end));
            assert(node_models(nodes@) =~= node_models(first).push(node_for(e.end)));
        }
        assert(node_models(nodes@) =~= new_nodes(old(self).seen_nodes(), *e));
        edges.push(stored_edge(e, self.edge_idx, &e.start));
        assert(edge_models(edges@) =~= seq![edge_for(*e, self.edge_idx, e.start)]);
        let ghost one = edges@;
        if e.start.tile_x != e.end.tile_x || e.start.tile_y != e.end.tile_y {
            edges.push(stored_edge(e, self.edge_idx, &e.end));
            assert(edge_models(edges@) =~= edge_models(one).push(
                edge_for(*e, self.edge_idx, e.end),
            ));
        }
        self.edge_idx += 1;
        EdgeRows { nodes, edges }
    }
}

fn stored_node(e: &EdgeEnd) -> (n: QNode)
    ensures
        n@ == node_for(*e),
{
    QNode {
        node_id: e.node_id,
        lon_e7: e.lon_e7,
        lat_e7: e.lat_e7,
        tile_x: e.tile_x,
        tile_y: e.tile_y,
        stable_id: e.stable_id.clone(),
    }
}

fn stored_edge(e: &MeasuredEdge, edge_idx: u32, end: &EdgeEnd) -> (q: QEdge)
    ensures
        q@ == edge_for(*e, edge_idx, *end),
{
    QEdge {
        edge_idx,
        start_id: e.start.node_id,
        end_id: e.end.node_id,
        parent_id: e.parent_id,
        geom_blob: geom_to_blob(e.geom.as_slice()),
        length_cm: e.length_cm,
        frc: e.frc,
        fow: e.fow,
        direction: e.direction,
        tile_x: end.tile_x,
        tile_y: end.tile_y,
        tile_id: end.tile_id,
        stable_id: e.stable_id.clone(),
    }
}

/// No node is stored twice: what an edge stores was not seen before it, is seen
/// after it, and is not stored twice by the edge itself.
pub proof fn law_nodes_are_stored_once(seen: Set<ElementId>, e: MeasuredEdge)
    ensures
        forall|i: int|
            0 <= i < new_nodes(seen, e).len() ==> !seen.contains(
                (#[trigger] new_nodes(seen, e)[i]).node_id,
            ) && seen.insert(e.start.node_id).insert(e.end.node_id).contains(
                new_nodes(seen, e)[i].node_id,
            ),
        forall|i: int, j: int|
            0 <= i < j < new_nodes(seen, e).len() ==> (#[trigger] new_nodes(seen, e)[i]).node_id
                != (#[trigger] new_nodes(seen, e)[j]).node_id,
{
}

/// An edge has a row in the tile of its start and one in the tile of its end, and no other:
/// one in all where the two are one tile. The rows differ in nothing but the tile.
pub proof fn law_edges_lie_in_the_tiles_of_their_ends(e: MeasuredEdge, edge_idx: u32)
    ensures
        1 <= edge_rows(e, edge_idx).len() <= 2,
        edge_rows(e, edge_idx)[0].tile == (e.start.tile_x, e.start.tile_y),
        edge_rows(e, edge_idx).last().tile == (e.end.tile_x, e.end.tile_y),
        edge_rows(e, edge_idx).len() == 2 ==> edge_rows(e, edge_idx)[0].tile != edge_rows(
            e,
            edge_idx,
        )[1].tile,
        forall|i: int|
            0 <= i < edge_rows(e, edge_idx).len() ==> (#[trigger] edge_rows(e, edge_idx)[i])
                == (QEdgeModel {
                tile: edge_rows(e, edge_idx)[i].tile,
                tile_id: edge_rows(e, edge_idx)[i].tile_id,
                ..edge_rows(e, edge_idx)[0]
            }),
{
}

} // verus!
